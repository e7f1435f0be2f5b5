//! Insertion of a flight into the radar, rebalancing on the way back up.

use vstd::prelude::*;
use crate::modelo::{
    Nodo, Vuelo, actualizar_altura, altura, balance_de, bien_formado, campo_altura, con_altura,
    contenido, es_abb, es_avl, lema_balance_acotado, lema_campo_es_altura, maximo, obtener_balance,
};
use crate::rotaciones::{
    cabe_rotacion_derecha, cabe_rotacion_izquierda, con_derecho, con_izquierdo,
    lema_doble_derecha_avl, lema_doble_izquierda_avl, lema_nodo_avl, lema_reemplazo_conserva,
    lema_rotacion_derecha_avl, lema_rotacion_derecha_conserva, lema_rotacion_izquierda_avl,
    lema_rotacion_izquierda_conserva, rotacion_derecha, rotacion_izquierda, rotar_derecha,
    rotar_izquierda,
};

verus! {

/// What inserting the flight `id` at altitude `k` does to the contents of the radar: each
/// altitude is unique, so an altitude already taken leaves the contents as they were.
pub open spec fn insercion(m: Map<u32, Seq<char>>, k: u32, id: Seq<char>) -> Map<
    u32,
    Seq<char>,
> {
    if m.contains_key(k) {
        m
    } else {
        m.insert(k, id)
    }
}

/// When an insertion at altitude `k` made the subtree `t` one level taller, the result `r`
/// is the new leaf, or `k` went to the side of `r` that is now the taller one.
pub open spec fn crecio_por(t: Option<Box<Nodo>>, r: Nodo, k: u32) -> bool {
    ||| t is None
    ||| k < r.vuelo.altitud && altura(r.izquierdo) == altura(r.derecho) + 1
    ||| r.vuelo.altitud < k && altura(r.derecho) == altura(r.izquierdo) + 1
}

/// What an insertion of `id` at altitude `k` into `t` guarantees of its result `r`.
pub open spec fn resultado_insercion(t: Option<Box<Nodo>>, r: Nodo, k: u32, id: Seq<char>) -> bool {
    &&& bien_formado(Some(Box::new(r)))
    &&& contenido(Some(Box::new(r))) == insercion(contenido(t), k, id)
    &&& contenido(t).contains_key(k) ==> Some(Box::new(r)) == t
    &&& altura(t) <= altura(Some(Box::new(r))) <= altura(t) + 1
    &&& altura(Some(Box::new(r))) == altura(t) + 1 ==> crecio_por(t, r, k)
}

/// The state of the node `n` once the insertion below the node `t` as it was has returned
/// and the stored height has been recomputed, before any rotation.
spec fn tras_insertar(n: Nodo, t: Nodo, k: u32, id: Seq<char>) -> bool {
    let (li, ld) = (n.izquierdo, n.derecho);
    &&& bien_formado(Some(Box::new(t)))
    &&& altura(Some(Box::new(t))) < i32::MAX
    &&& k != t.vuelo.altitud
    &&& n.vuelo == t.vuelo
    &&& n == con_altura(n)
    &&& es_abb(Some(Box::new(n)))
    &&& contenido(Some(Box::new(n))) == insercion(contenido(Some(Box::new(t))), k, id)
    &&& es_avl(li) && es_avl(ld)
    &&& campo_altura(li) == altura(li) && campo_altura(ld) == altura(ld)
    &&& contenido(Some(Box::new(t))).contains_key(k) ==> n == t
    &&& k < t.vuelo.altitud ==> {
        &&& ld == t.derecho
        &&& li is Some
        &&& altura(t.izquierdo) <= altura(li) <= altura(t.izquierdo) + 1
        &&& altura(li) == altura(t.izquierdo) + 1 ==> crecio_por(t.izquierdo, *li.unwrap(), k)
    }
    &&& t.vuelo.altitud < k ==> {
        &&& li == t.izquierdo
        &&& ld is Some
        &&& altura(t.derecho) <= altura(ld) <= altura(t.derecho) + 1
        &&& altura(ld) == altura(t.derecho) + 1 ==> crecio_por(t.derecho, *ld.unwrap(), k)
    }
}

/// Putting the result of the recursive insertion back under the node keeps it ordered,
/// gives the expected contents and leaves room to recompute its height.
proof fn lema_tras_insertar(t: Nodo, n1: Nodo, k: u32, id: Seq<char>)
    requires
        bien_formado(Some(Box::new(t))),
        altura(Some(Box::new(t))) < i32::MAX,
        k != t.vuelo.altitud,
        k < t.vuelo.altitud ==> {
            &&& n1 == con_izquierdo(t, n1.izquierdo)
            &&& n1.izquierdo is Some
            &&& resultado_insercion(t.izquierdo, *n1.izquierdo.unwrap(), k, id)
        },
        t.vuelo.altitud < k ==> {
            &&& n1 == con_derecho(t, n1.derecho)
            &&& n1.derecho is Some
            &&& resultado_insercion(t.derecho, *n1.derecho.unwrap(), k, id)
        },
    ensures
        maximo(campo_altura(n1.izquierdo), campo_altura(n1.derecho)) < i32::MAX,
        tras_insertar(con_altura(n1), t, k, id),
{
    let bt = Some(Box::new(t));
    lema_campo_es_altura(t.izquierdo);
    lema_campo_es_altura(t.derecho);
    lema_campo_es_altura(n1.izquierdo);
    lema_campo_es_altura(n1.derecho);
    let n = con_altura(n1);
    if k < t.vuelo.altitud {
        let nuevo = n1.izquierdo;
        assert forall|j: u32| #[trigger] contenido(nuevo).contains_key(j) implies j
            < t.vuelo.altitud by {
            if j != k {
                assert(contenido(t.izquierdo).contains_key(j));
            }
        }
        assert(!contenido(t.derecho).contains_key(k));
        assert(contenido(t.izquierdo).contains_key(k) <==> contenido(bt).contains_key(k));
        assert(contenido(Some(Box::new(n))) =~= insercion(contenido(bt), k, id));
    } else {
        let nuevo = n1.derecho;
        assert forall|j: u32| #[trigger] contenido(nuevo).contains_key(j) implies t.vuelo.altitud
            < j by {
            if j != k {
                assert(contenido(t.derecho).contains_key(j));
            }
        }
        assert(!contenido(t.izquierdo).contains_key(k));
        assert(contenido(t.derecho).contains_key(k) <==> contenido(bt).contains_key(k));
        assert(contenido(Some(Box::new(n))) =~= insercion(contenido(bt), k, id));
    }
    if contenido(bt).contains_key(k) {
        assert(n1 == t);
    }
}

/// Left-left case: a right rotation restores the balance.
proof fn lema_caso_izquierda_izquierda(n: Nodo, t: Nodo, k: u32, id: Seq<char>)
    requires
        tras_insertar(n, t, k, id),
        balance_de(n) > 1,
        n.izquierdo is Some,
        k < (*n.izquierdo.unwrap()).vuelo.altitud,
    ensures
        cabe_rotacion_derecha(n),
        resultado_insercion(Some(Box::new(t)), rotacion_derecha(n), k, id),
{
    lema_campo_es_altura(t.izquierdo);
    lema_campo_es_altura(t.derecho);
    lema_rotacion_derecha_conserva(n);
    lema_rotacion_derecha_avl(n);
}

/// Right-right case: a left rotation restores the balance.
proof fn lema_caso_derecha_derecha(n: Nodo, t: Nodo, k: u32, id: Seq<char>)
    requires
        tras_insertar(n, t, k, id),
        balance_de(n) < -1,
        n.derecho is Some,
        (*n.derecho.unwrap()).vuelo.altitud < k,
    ensures
        cabe_rotacion_izquierda(n),
        resultado_insercion(Some(Box::new(t)), rotacion_izquierda(n), k, id),
{
    lema_campo_es_altura(t.izquierdo);
    lema_campo_es_altura(t.derecho);
    lema_rotacion_izquierda_conserva(n);
    lema_rotacion_izquierda_avl(n);
}

/// Left-right case: a left rotation of the left child, then a right rotation.
proof fn lema_caso_izquierda_derecha(n: Nodo, t: Nodo, k: u32, id: Seq<char>)
    requires
        tras_insertar(n, t, k, id),
        balance_de(n) > 1,
        n.izquierdo is Some,
        (*n.izquierdo.unwrap()).vuelo.altitud < k,
    ensures
        (*n.izquierdo.unwrap()).derecho is Some,
        cabe_rotacion_izquierda(*n.izquierdo.unwrap()),
        es_abb(Some(Box::new(rotacion_izquierda(*n.izquierdo.unwrap())))),
        contenido(Some(Box::new(rotacion_izquierda(*n.izquierdo.unwrap())))) == contenido(
            n.izquierdo,
        ),
        ({
            let n2 = con_izquierdo(n, Some(Box::new(rotacion_izquierda(*n.izquierdo.unwrap()))));
            &&& cabe_rotacion_derecha(n2)
            &&& resultado_insercion(Some(Box::new(t)), rotacion_derecha(n2), k, id)
        }),
{
    let l = *n.izquierdo.unwrap();
    lema_campo_es_altura(t.izquierdo);
    lema_campo_es_altura(t.derecho);
    assert(es_avl(l.derecho));
    let m = *l.derecho.unwrap();
    assert(es_avl(m.izquierdo) && es_avl(m.derecho));
    lema_doble_derecha_avl(n);
    lema_rotacion_izquierda_conserva(l);
    let rl = Some(Box::new(rotacion_izquierda(l)));
    lema_reemplazo_conserva(n, rl);
    lema_rotacion_derecha_conserva(con_izquierdo(n, rl));
}

/// Right-left case: a right rotation of the right child, then a left rotation.
proof fn lema_caso_derecha_izquierda(n: Nodo, t: Nodo, k: u32, id: Seq<char>)
    requires
        tras_insertar(n, t, k, id),
        balance_de(n) < -1,
        n.derecho is Some,
        k < (*n.derecho.unwrap()).vuelo.altitud,
    ensures
        (*n.derecho.unwrap()).izquierdo is Some,
        cabe_rotacion_derecha(*n.derecho.unwrap()),
        es_abb(Some(Box::new(rotacion_derecha(*n.derecho.unwrap())))),
        contenido(Some(Box::new(rotacion_derecha(*n.derecho.unwrap())))) == contenido(n.derecho),
        ({
            let n2 = con_derecho(n, Some(Box::new(rotacion_derecha(*n.derecho.unwrap()))));
            &&& cabe_rotacion_izquierda(n2)
            &&& resultado_insercion(Some(Box::new(t)), rotacion_izquierda(n2), k, id)
        }),
{
    let r = *n.derecho.unwrap();
    lema_campo_es_altura(t.izquierdo);
    lema_campo_es_altura(t.derecho);
    assert(es_avl(r.izquierdo));
    let m = *r.izquierdo.unwrap();
    assert(es_avl(m.izquierdo) && es_avl(m.derecho));
    lema_doble_izquierda_avl(n);
    lema_rotacion_derecha_conserva(r);
    let rr = Some(Box::new(rotacion_derecha(r)));
    lema_reemplazo_conserva(n, rr);
    lema_rotacion_izquierda_conserva(con_derecho(n, rr));
}

/// When none of the four rotation cases applies, the node is already balanced.
proof fn lema_sin_rotacion(n: Nodo, t: Nodo, k: u32, id: Seq<char>)
    requires
        tras_insertar(n, t, k, id),
        balance_de(n) > 1 ==> n.izquierdo is Some && k == (*n.izquierdo.unwrap()).vuelo.altitud,
        balance_de(n) < -1 ==> n.derecho is Some && k == (*n.derecho.unwrap()).vuelo.altitud,
    ensures
        resultado_insercion(Some(Box::new(t)), n, k, id),
{
    lema_campo_es_altura(t.izquierdo);
    lema_campo_es_altura(t.derecho);
    lema_nodo_avl(n);
}

/// The rebalancing step of an insertion of altitude `k` at a node whose height has just been
/// recomputed: the left-left, right-right, left-right and right-left cases, tried in that
/// order, or no rotation.
pub open spec fn rebalanceo_insercion(m: Nodo, k: u32) -> Nodo {
    let b = balance_de(m);
    if b > 1 && k < (*m.izquierdo.unwrap()).vuelo.altitud {
        rotacion_derecha(m)
    } else if b < -1 && k > (*m.derecho.unwrap()).vuelo.altitud {
        rotacion_izquierda(m)
    } else if b > 1 && k > (*m.izquierdo.unwrap()).vuelo.altitud {
        rotacion_derecha(
            con_izquierdo(m, Some(Box::new(rotacion_izquierda(*m.izquierdo.unwrap())))),
        )
    } else if b < -1 && k < (*m.derecho.unwrap()).vuelo.altitud {
        rotacion_izquierda(
            con_derecho(m, Some(Box::new(rotacion_derecha(*m.derecho.unwrap())))),
        )
    } else {
        m
    }
}

/// The subtree that inserting `v` into `t` produces: a new leaf in place of an empty
/// subtree; the subtree itself when the altitude is already there; otherwise the insertion
/// goes down the side of the altitude, the node's height is recomputed and the node is
/// rebalanced.
pub open spec fn insercion_arbol(t: Option<Box<Nodo>>, v: Vuelo) -> Nodo
    decreases t,
{
    match t {
        None => Nodo { vuelo: v, izquierdo: None, derecho: None, altura: 1 },
        Some(n) => if v.altitud < n.vuelo.altitud {
            rebalanceo_insercion(
                con_altura(con_izquierdo(*n, Some(Box::new(insercion_arbol(n.izquierdo, v))))),
                v.altitud,
            )
        } else if n.vuelo.altitud < v.altitud {
            rebalanceo_insercion(
                con_altura(con_derecho(*n, Some(Box::new(insercion_arbol(n.derecho, v))))),
                v.altitud,
            )
        } else {
            *n
        },
    }
}

/// Inserting into a well-formed radar yields a well-formed radar with the flight added (or
/// nothing changed when its altitude was taken), one level taller at most.
pub proof fn lema_insercion(t: Option<Box<Nodo>>, v: Vuelo)
    requires
        bien_formado(t),
        altura(t) < i32::MAX,
    ensures
        resultado_insercion(t, insercion_arbol(t, v), v.altitud, v.id@),
    decreases t,
{
    let (k, id) = (v.altitud, v.id@);
    match t {
        None => {
            let h = Nodo { vuelo: v, izquierdo: None, derecho: None, altura: 1 };
            assert(contenido(None) == Map::<u32, Seq<char>>::empty());
            assert(altura(None) == 0);
            assert(es_abb(None) && es_avl(None));
            assert(contenido(Some(Box::new(h))) =~= insercion(contenido(t), k, id));
        },
        Some(n) => {
            if k < n.vuelo.altitud {
                lema_insercion(n.izquierdo, v);
                let n1 = con_izquierdo(*n, Some(Box::new(insercion_arbol(n.izquierdo, v))));
                lema_tras_insertar(*n, n1, k, id);
                lema_rebalanceo_insercion(con_altura(n1), *n, k, id);
            } else if n.vuelo.altitud < k {
                lema_insercion(n.derecho, v);
                let n1 = con_derecho(*n, Some(Box::new(insercion_arbol(n.derecho, v))));
                lema_tras_insertar(*n, n1, k, id);
                lema_rebalanceo_insercion(con_altura(n1), *n, k, id);
            } else {
                assert(contenido(t).contains_key(k));
            }
        },
    }
}

/// The rebalancing step turns the state after the recursive insertion into the result an
/// insertion promises.
proof fn lema_rebalanceo_insercion(m: Nodo, t: Nodo, k: u32, id: Seq<char>)
    requires
        tras_insertar(m, t, k, id),
    ensures
        resultado_insercion(Some(Box::new(t)), rebalanceo_insercion(m, k), k, id),
{
    lema_campo_es_altura(t.izquierdo);
    lema_campo_es_altura(t.derecho);
    let b = balance_de(m);
    if b > 1 && k < (*m.izquierdo.unwrap()).vuelo.altitud {
        lema_caso_izquierda_izquierda(m, t, k, id);
    } else if b < -1 && k > (*m.derecho.unwrap()).vuelo.altitud {
        lema_caso_derecha_derecha(m, t, k, id);
    } else if b > 1 && k > (*m.izquierdo.unwrap()).vuelo.altitud {
        lema_caso_izquierda_derecha(m, t, k, id);
    } else if b < -1 && k < (*m.derecho.unwrap()).vuelo.altitud {
        lema_caso_derecha_izquierda(m, t, k, id);
    } else {
        lema_sin_rotacion(m, t, k, id);
    }
}

/// A balanced node is left as it is by the rebalancing step.
proof fn lema_rebalanceo_equilibrado(m: Nodo, k: u32)
    requires
        -1 <= balance_de(m) <= 1,
    ensures
        rebalanceo_insercion(m, k) == m,
{
}

/// Inserting a flight at an altitude the radar already holds gives back the same subtree.
pub proof fn lema_insercion_presente(t: Option<Box<Nodo>>, v: Vuelo)
    requires
        bien_formado(t),
        contenido(t).contains_key(v.altitud),
    ensures
        Some(Box::new(insercion_arbol(t, v))) == t,
    decreases t,
{
    let k = v.altitud;
    match t {
        None => {},
        Some(bn) => {
            let n = *bn;
            lema_campo_es_altura(n.izquierdo);
            lema_campo_es_altura(n.derecho);
            lema_balance_acotado(t);
            assert(con_altura(n) == n);
            if k < n.vuelo.altitud {
                assert(!contenido(n.derecho).contains_key(k));
                assert(contenido(n.izquierdo).contains_key(k));
                lema_insercion_presente(n.izquierdo, v);
                assert(con_izquierdo(n, Some(Box::new(insercion_arbol(n.izquierdo, v)))) == n);
                lema_rebalanceo_equilibrado(n, k);
            } else if n.vuelo.altitud < k {
                assert(!contenido(n.izquierdo).contains_key(k));
                assert(contenido(n.derecho).contains_key(k));
                lema_insercion_presente(n.derecho, v);
                assert(con_derecho(n, Some(Box::new(insercion_arbol(n.derecho, v)))) == n);
                lema_rebalanceo_equilibrado(n, k);
            }
        },
    }
}

/// Inserts a flight into the AVL subtree `nodo_opt`, keeping it ordered and balanced, and
/// returns the new root. A flight at an altitude already on the radar is not inserted and
/// the subtree comes back unchanged.
pub fn insertar(nodo_opt: Option<Box<Nodo>>, vuelo: Vuelo) -> (r: Box<Nodo>)
    requires
        bien_formado(nodo_opt),
        altura(nodo_opt) < i32::MAX,
    ensures
        *r == insercion_arbol(nodo_opt, vuelo),
        bien_formado(Some(r)),
        contenido(Some(r)) == insercion(contenido(nodo_opt), vuelo.altitud, vuelo.id@),
        contenido(nodo_opt).contains_key(vuelo.altitud) ==> Some(r) == nodo_opt,
        altura(nodo_opt) <= altura(Some(r)) <= altura(nodo_opt) + 1,
        altura(Some(r)) == altura(nodo_opt) + 1 ==> crecio_por(nodo_opt, *r, vuelo.altitud),
    decreases nodo_opt,
{
    let mut nodo = match nodo_opt {
        None => return Box::new(Nodo::nuevo(vuelo)),
        Some(n) => n,
    };
    let ghost t = *nodo;
    let ghost v = vuelo;
    let ghost k = vuelo.altitud;
    let ghost id = vuelo.id@;
    let altitud_vuelo = vuelo.altitud;
    if altitud_vuelo < nodo.vuelo.altitud {
        let nuevo = insertar(nodo.izquierdo.take(), vuelo);
        nodo.izquierdo = Some(nuevo);
    } else if altitud_vuelo > nodo.vuelo.altitud {
        let nuevo = insertar(nodo.derecho.take(), vuelo);
        nodo.derecho = Some(nuevo);
    } else {
        proof {
            assert(contenido(Some(Box::new(t))).contains_key(k));
        }
        return nodo;
    }
    proof {
        lema_tras_insertar(t, *nodo, k, id);
        if k < t.vuelo.altitud {
            assert(*nodo == con_izquierdo(t, Some(Box::new(insercion_arbol(t.izquierdo, v)))));
        } else {
            assert(*nodo == con_derecho(t, Some(Box::new(insercion_arbol(t.derecho, v)))));
        }
    }
    actualizar_altura(&mut *nodo);
    let balance = obtener_balance(&*nodo);
    // Left-left case: a single right rotation.
    if balance > 1 && altitud_vuelo < nodo.izquierdo.as_ref().unwrap().vuelo.altitud {
        proof {
            lema_caso_izquierda_izquierda(*nodo, t, k, id);
        }
        return rotar_derecha(nodo);
    }
    // Right-right case: a single left rotation.
    if balance < -1 && altitud_vuelo > nodo.derecho.as_ref().unwrap().vuelo.altitud {
        proof {
            lema_caso_derecha_derecha(*nodo, t, k, id);
        }
        return rotar_izquierda(nodo);
    }
    // Left-right case: a double rotation.
    if balance > 1 && altitud_vuelo > nodo.izquierdo.as_ref().unwrap().vuelo.altitud {
        let ghost n2 = *nodo;
        proof {
            lema_caso_izquierda_derecha(n2, t, k, id);
        }
        let hijo_izq = nodo.izquierdo.take().unwrap();
        nodo.izquierdo = Some(rotar_izquierda(hijo_izq));
        proof {
            assert(*nodo == con_izquierdo(n2, Some(Box::new(rotacion_izquierda(*n2.izquierdo.unwrap())))));
        }
        return rotar_derecha(nodo);
    }
    // Right-left case: a double rotation.
    if balance < -1 && altitud_vuelo < nodo.derecho.as_ref().unwrap().vuelo.altitud {
        let ghost n2 = *nodo;
        proof {
            lema_caso_derecha_izquierda(n2, t, k, id);
        }
        let hijo_der = nodo.derecho.take().unwrap();
        nodo.derecho = Some(rotar_derecha(hijo_der));
        proof {
            assert(*nodo == con_derecho(n2, Some(Box::new(rotacion_derecha(*n2.derecho.unwrap())))));
        }
        return rotar_izquierda(nodo);
    }
    proof {
        lema_sin_rotacion(*nodo, t, k, id);
    }
    nodo
}

} // verus!
