//! Removal of a flight from the radar (a landing), rebalancing on the way back up.

use vstd::prelude::*;
use crate::modelo::{
    Nodo, Vuelo, actualizar_altura, altura, balance_de, bien_formado, campo_altura, con_altura,
    contenido, es_abb, es_avl, lema_balance_acotado, lema_campo_es_altura, maximo, obtener_balance,
};
use crate::rotaciones::{
    cabe_rotacion_derecha, cabe_rotacion_izquierda, con_derecho, con_izquierdo,
    lema_doble_derecha_avl, lema_doble_izquierda_avl, lema_nodo_avl, lema_reemplazo_conserva,
    lema_rotacion_derecha_avl, lema_rotacion_derecha_conserva, lema_rotacion_izquierda_avl,
    lema_rotacion_izquierda_conserva, rotacion_derecha, rotacion_izquierda, rotar_derecha,
    rotar_izquierda,
};

verus! {

/// The flight of the rightmost node of a subtree: follow the right children to the end.
pub open spec fn maximo_derecho(n: Nodo) -> Vuelo
    decreases n,
{
    match n.derecho {
        None => n.vuelo,
        Some(d) => maximo_derecho(*d),
    }
}

/// In an ordered subtree the rightmost flight is the one at the highest altitude.
pub proof fn lema_maximo_derecho(n: Nodo)
    requires
        es_abb(Some(Box::new(n))),
    ensures
        contenido(Some(Box::new(n))).contains_key(maximo_derecho(n).altitud),
        contenido(Some(Box::new(n)))[maximo_derecho(n).altitud] == maximo_derecho(n).id@,
        forall|k: u32| #[trigger]
            contenido(Some(Box::new(n))).contains_key(k) ==> k <= maximo_derecho(n).altitud,
    decreases n,
{
    let c = contenido(Some(Box::new(n)));
    match n.derecho {
        None => {
            assert(contenido(n.derecho) =~= Map::empty());
            assert forall|k: u32| #[trigger] c.contains_key(k) implies k <= n.vuelo.altitud by {
                if k != n.vuelo.altitud {
                    assert(contenido(n.izquierdo).contains_key(k));
                }
            }
        },
        Some(d) => {
            lema_maximo_derecho(*d);
            let m = maximo_derecho(*d);
            assert(contenido(n.derecho).contains_key(m.altitud));
            assert forall|k: u32| #[trigger] c.contains_key(k) implies k <= m.altitud by {
                if contenido(n.izquierdo).contains_key(k) {
                    assert(k < n.vuelo.altitud);
                } else if k != n.vuelo.altitud {
                    assert(contenido(n.derecho).contains_key(k));
                }
            }
        },
    }
}

/// A fresh copy of the flight of the rightmost node of a subtree. In an ordered subtree that
/// is the flight at the highest altitude: the in-order predecessor used when a node with two
/// children is removed.
pub fn obtener_maximo(nodo: &Box<Nodo>) -> (v: Vuelo)
    ensures
        v == maximo_derecho(**nodo),
        es_abb(Some(*nodo)) ==> {
            &&& contenido(Some(*nodo)).contains_key(v.altitud)
            &&& contenido(Some(*nodo))[v.altitud] == v.id@
            &&& forall|k: u32| #[trigger] contenido(Some(*nodo)).contains_key(k) ==> k <= v.altitud
        },
{
    let mut actual = nodo;
    while actual.derecho.is_some()
        invariant
            maximo_derecho(**actual) == maximo_derecho(**nodo),
        decreases altura(Some(*actual)),
    {
        actual = actual.derecho.as_ref().unwrap();
    }
    proof {
        if es_abb(Some(*nodo)) {
            lema_maximo_derecho(**nodo);
        }
    }
    Vuelo { id: actual.vuelo.id.clone(), altitud: actual.vuelo.altitud }
}

/// What a removal of altitude `k` from `t` guarantees of its result `r`.
pub open spec fn resultado_eliminacion(t: Option<Box<Nodo>>, r: Option<Box<Nodo>>, k: u32) -> bool {
    &&& bien_formado(r)
    &&& contenido(r) == contenido(t).remove(k)
    &&& altura(t) - 1 <= altura(r) <= altura(t)
    &&& !contenido(t).contains_key(k) ==> r == t
}

/// The state of the node `n` once the removal below the node `t` as it was has returned
/// and the stored height has been recomputed, before any rotation.
spec fn tras_eliminar(n: Nodo, t: Nodo, k: u32) -> bool {
    let (li, ld) = (n.izquierdo, n.derecho);
    &&& bien_formado(Some(Box::new(t)))
    &&& n == con_altura(n)
    &&& es_abb(Some(Box::new(n)))
    &&& contenido(Some(Box::new(n))) == contenido(Some(Box::new(t))).remove(k)
    &&& es_avl(li) && es_avl(ld)
    &&& campo_altura(li) == altura(li) && campo_altura(ld) == altura(ld)
    &&& altura(t.izquierdo) - 1 <= altura(li) <= altura(t.izquierdo)
    &&& altura(t.derecho) - 1 <= altura(ld) <= altura(t.derecho)
    &&& li is Some ==> -1 <= balance_de(*li.unwrap()) <= 1
    &&& ld is Some ==> -1 <= balance_de(*ld.unwrap()) <= 1
    &&& !contenido(Some(Box::new(t))).contains_key(k) ==> n == t && -1 <= balance_de(n) <= 1
}

/// Putting the result of the recursive removal back under the node (after replacing the
/// node's flight by its predecessor when the flight removed was its own) keeps it ordered,
/// gives the expected contents and leaves room to recompute its height.
proof fn lema_tras_eliminar(t: Nodo, n1: Nodo, k: u32)
    requires
        bien_formado(Some(Box::new(t))),
        k < t.vuelo.altitud ==> {
            &&& n1 == con_izquierdo(t, n1.izquierdo)
            &&& resultado_eliminacion(t.izquierdo, n1.izquierdo, k)
        },
        t.vuelo.altitud < k ==> {
            &&& n1 == con_derecho(t, n1.derecho)
            &&& resultado_eliminacion(t.derecho, n1.derecho, k)
        },
        k == t.vuelo.altitud ==> {
            let m = n1.vuelo.altitud;
            &&& n1.derecho == t.derecho
            &&& n1.altura == t.altura
            &&& contenido(t.izquierdo).contains_key(m)
            &&& contenido(t.izquierdo)[m] == n1.vuelo.id@
            &&& forall|j: u32| #[trigger] contenido(t.izquierdo).contains_key(j) ==> j <= m
            &&& resultado_eliminacion(t.izquierdo, n1.izquierdo, m)
        },
    ensures
        maximo(campo_altura(n1.izquierdo), campo_altura(n1.derecho)) < i32::MAX,
        tras_eliminar(con_altura(n1), t, k),
{
    let bt = Some(Box::new(t));
    lema_campo_es_altura(t.izquierdo);
    lema_campo_es_altura(t.derecho);
    lema_campo_es_altura(n1.izquierdo);
    lema_campo_es_altura(n1.derecho);
    if n1.izquierdo is Some {
        lema_balance_acotado(n1.izquierdo);
    }
    if n1.derecho is Some {
        lema_balance_acotado(n1.derecho);
    }
    let n = con_altura(n1);
    lema_balance_acotado(bt);
    if !contenido(bt).contains_key(k) {
        assert(n1 == t);
    }
    if k < t.vuelo.altitud {
        assert forall|j: u32| #[trigger] contenido(n1.izquierdo).contains_key(j) implies j
            < t.vuelo.altitud by {
            assert(contenido(t.izquierdo).contains_key(j));
        }
        assert(!contenido(t.derecho).contains_key(k));
        assert(contenido(Some(Box::new(n))) =~= contenido(bt).remove(k));
    } else if t.vuelo.altitud < k {
        assert forall|j: u32| #[trigger] contenido(n1.derecho).contains_key(j) implies t.vuelo.altitud
            < j by {
            assert(contenido(t.derecho).contains_key(j));
        }
        assert(!contenido(t.izquierdo).contains_key(k));
        assert(contenido(Some(Box::new(n))) =~= contenido(bt).remove(k));
    } else {
        let m = n1.vuelo.altitud;
        assert(m < t.vuelo.altitud);
        assert forall|j: u32| #[trigger] contenido(n1.izquierdo).contains_key(j) implies j < m by {
            assert(contenido(t.izquierdo).contains_key(j));
        }
        assert forall|j: u32| #[trigger] contenido(n1.derecho).contains_key(j) implies m < j by {
        }
        assert(!contenido(t.derecho).contains_key(m));
        assert(contenido(Some(Box::new(n))) =~= contenido(bt).remove(k));
    }
}

/// Single right rotation after a removal that left the node two levels heavier on the left.
proof fn lema_eliminar_simple_derecha(n: Nodo, t: Nodo, k: u32)
    requires
        tras_eliminar(n, t, k),
        balance_de(n) > 1,
        n.izquierdo is Some,
        balance_de(*n.izquierdo.unwrap()) >= 0,
    ensures
        cabe_rotacion_derecha(n),
        resultado_eliminacion(Some(Box::new(t)), Some(Box::new(rotacion_derecha(n))), k),
{
    let l = *n.izquierdo.unwrap();
    lema_campo_es_altura(t.izquierdo);
    lema_campo_es_altura(t.derecho);
    lema_campo_es_altura(l.izquierdo);
    lema_campo_es_altura(l.derecho);
    lema_rotacion_derecha_conserva(n);
    lema_rotacion_derecha_avl(n);
}

/// Single left rotation after a removal that left the node two levels heavier on the right.
proof fn lema_eliminar_simple_izquierda(n: Nodo, t: Nodo, k: u32)
    requires
        tras_eliminar(n, t, k),
        balance_de(n) < -1,
        n.derecho is Some,
        balance_de(*n.derecho.unwrap()) <= 0,
    ensures
        cabe_rotacion_izquierda(n),
        resultado_eliminacion(Some(Box::new(t)), Some(Box::new(rotacion_izquierda(n))), k),
{
    let r = *n.derecho.unwrap();
    lema_campo_es_altura(t.izquierdo);
    lema_campo_es_altura(t.derecho);
    lema_campo_es_altura(r.izquierdo);
    lema_campo_es_altura(r.derecho);
    lema_rotacion_izquierda_conserva(n);
    lema_rotacion_izquierda_avl(n);
}

/// Double rotation (left at the left child, then right) after a removal that left the node
/// two levels heavier on the left, with the left child heavier on its right.
proof fn lema_eliminar_doble_derecha(n: Nodo, t: Nodo, k: u32)
    requires
        tras_eliminar(n, t, k),
        balance_de(n) > 1,
        n.izquierdo is Some,
        balance_de(*n.izquierdo.unwrap()) < 0,
    ensures
        (*n.izquierdo.unwrap()).derecho is Some,
        cabe_rotacion_izquierda(*n.izquierdo.unwrap()),
        ({
            let n2 = con_izquierdo(n, Some(Box::new(rotacion_izquierda(*n.izquierdo.unwrap()))));
            &&& cabe_rotacion_derecha(n2)
            &&& resultado_eliminacion(Some(Box::new(t)), Some(Box::new(rotacion_derecha(n2))), k)
        }),
{
    let l = *n.izquierdo.unwrap();
    lema_campo_es_altura(t.izquierdo);
    lema_campo_es_altura(t.derecho);
    lema_campo_es_altura(l.izquierdo);
    lema_campo_es_altura(l.derecho);
    assert(es_avl(l.derecho));
    let m = *l.derecho.unwrap();
    assert(es_avl(m.izquierdo) && es_avl(m.derecho));
    lema_doble_derecha_avl(n);
    lema_rotacion_izquierda_conserva(l);
    let rl = Some(Box::new(rotacion_izquierda(l)));
    lema_reemplazo_conserva(n, rl);
    lema_rotacion_derecha_conserva(con_izquierdo(n, rl));
}

/// Double rotation (right at the right child, then left) after a removal that left the node
/// two levels heavier on the right, with the right child heavier on its left.
proof fn lema_eliminar_doble_izquierda(n: Nodo, t: Nodo, k: u32)
    requires
        tras_eliminar(n, t, k),
        balance_de(n) < -1,
        n.derecho is Some,
        balance_de(*n.derecho.unwrap()) > 0,
    ensures
        (*n.derecho.unwrap()).izquierdo is Some,
        cabe_rotacion_derecha(*n.derecho.unwrap()),
        ({
            let n2 = con_derecho(n, Some(Box::new(rotacion_derecha(*n.derecho.unwrap()))));
            &&& cabe_rotacion_izquierda(n2)
            &&& resultado_eliminacion(Some(Box::new(t)), Some(Box::new(rotacion_izquierda(n2))), k)
        }),
{
    let r = *n.derecho.unwrap();
    lema_campo_es_altura(t.izquierdo);
    lema_campo_es_altura(t.derecho);
    lema_campo_es_altura(r.izquierdo);
    lema_campo_es_altura(r.derecho);
    assert(es_avl(r.izquierdo));
    let m = *r.izquierdo.unwrap();
    assert(es_avl(m.izquierdo) && es_avl(m.derecho));
    lema_doble_izquierda_avl(n);
    lema_rotacion_derecha_conserva(r);
    let rr = Some(Box::new(rotacion_derecha(r)));
    lema_reemplazo_conserva(n, rr);
    lema_rotacion_izquierda_conserva(con_derecho(n, rr));
}

/// When the node is still balanced after the removal, no rotation is needed.
proof fn lema_eliminar_sin_rotacion(n: Nodo, t: Nodo, k: u32)
    requires
        tras_eliminar(n, t, k),
        -1 <= balance_de(n) <= 1,
    ensures
        resultado_eliminacion(Some(Box::new(t)), Some(Box::new(n)), k),
{
    lema_campo_es_altura(t.izquierdo);
    lema_campo_es_altura(t.derecho);
    lema_nodo_avl(n);
}

/// The rebalancing step of a removal at a node whose height has just been recomputed: two
/// levels heavier on the left, a right rotation (after a left rotation of the left child when
/// that child leans right); two levels heavier on the right, the mirror image; otherwise no
/// rotation.
pub open spec fn rebalanceo_eliminacion(m: Nodo) -> Nodo {
    let b = balance_de(m);
    if b > 1 && balance_de(*m.izquierdo.unwrap()) >= 0 {
        rotacion_derecha(m)
    } else if b > 1 && balance_de(*m.izquierdo.unwrap()) < 0 {
        rotacion_derecha(
            con_izquierdo(m, Some(Box::new(rotacion_izquierda(*m.izquierdo.unwrap())))),
        )
    } else if b < -1 && balance_de(*m.derecho.unwrap()) <= 0 {
        rotacion_izquierda(m)
    } else if b < -1 && balance_de(*m.derecho.unwrap()) > 0 {
        rotacion_izquierda(
            con_derecho(m, Some(Box::new(rotacion_derecha(*m.derecho.unwrap())))),
        )
    } else {
        m
    }
}

/// The subtree that removing altitude `k` from `t` produces. Below a node the removal goes
/// down the side of `k`; at the node itself a leaf goes, a node with one child is replaced by
/// it, and a node with two children takes the flight of its in-order predecessor (the
/// rightmost flight of its left subtree), which is then removed from the left subtree. After
/// a removal below, the node's height is recomputed and the node is rebalanced.
pub open spec fn eliminacion_arbol(t: Option<Box<Nodo>>, k: u32) -> Option<Box<Nodo>>
    decreases t,
{
    match t {
        None => None,
        Some(n) => if k < n.vuelo.altitud {
            Some(
                Box::new(
                    rebalanceo_eliminacion(
                        con_altura(con_izquierdo(*n, eliminacion_arbol(n.izquierdo, k))),
                    ),
                ),
            )
        } else if n.vuelo.altitud < k {
            Some(
                Box::new(
                    rebalanceo_eliminacion(
                        con_altura(con_derecho(*n, eliminacion_arbol(n.derecho, k))),
                    ),
                ),
            )
        } else if n.izquierdo is None && n.derecho is None {
            None
        } else if n.izquierdo is None {
            n.derecho
        } else if n.derecho is None {
            n.izquierdo
        } else {
            let p = maximo_derecho(*n.izquierdo.unwrap());
            Some(
                Box::new(
                    rebalanceo_eliminacion(
                        con_altura(
                            Nodo {
                                vuelo: p,
                                izquierdo: eliminacion_arbol(n.izquierdo, p.altitud),
                                derecho: n.derecho,
                                altura: n.altura,
                            },
                        ),
                    ),
                ),
            )
        },
    }
}

/// The rebalancing step turns the state after the removal below into the result a removal
/// promises.
proof fn lema_rebalanceo_eliminacion(m: Nodo, t: Nodo, k: u32)
    requires
        tras_eliminar(m, t, k),
    ensures
        resultado_eliminacion(Some(Box::new(t)), Some(Box::new(rebalanceo_eliminacion(m))), k),
{
    let b = balance_de(m);
    if b > 1 && balance_de(*m.izquierdo.unwrap()) >= 0 {
        lema_eliminar_simple_derecha(m, t, k);
    } else if b > 1 && balance_de(*m.izquierdo.unwrap()) < 0 {
        lema_eliminar_doble_derecha(m, t, k);
    } else if b < -1 && balance_de(*m.derecho.unwrap()) <= 0 {
        lema_eliminar_simple_izquierda(m, t, k);
    } else if b < -1 && balance_de(*m.derecho.unwrap()) > 0 {
        lema_eliminar_doble_izquierda(m, t, k);
    } else {
        lema_eliminar_sin_rotacion(m, t, k);
    }
}

/// Removing an altitude from a well-formed radar yields a well-formed radar without it, at
/// most one level shorter, and the same subtree when the altitude was not there.
pub proof fn lema_eliminacion(t: Option<Box<Nodo>>, k: u32)
    requires
        bien_formado(t),
    ensures
        resultado_eliminacion(t, eliminacion_arbol(t, k), k),
    decreases t,
{
    match t {
        None => {
            assert(contenido(t) =~= contenido(t).remove(k));
        },
        Some(bn) => {
            let n = *bn;
            let bt = Some(Box::new(n));
            lema_campo_es_altura(n.izquierdo);
            lema_campo_es_altura(n.derecho);
            if k < n.vuelo.altitud {
                lema_eliminacion(n.izquierdo, k);
                let n1 = con_izquierdo(n, eliminacion_arbol(n.izquierdo, k));
                lema_tras_eliminar(n, n1, k);
                lema_rebalanceo_eliminacion(con_altura(n1), n, k);
            } else if n.vuelo.altitud < k {
                lema_eliminacion(n.derecho, k);
                let n1 = con_derecho(n, eliminacion_arbol(n.derecho, k));
                lema_tras_eliminar(n, n1, k);
                lema_rebalanceo_eliminacion(con_altura(n1), n, k);
            } else if n.izquierdo is None && n.derecho is None {
                assert(contenido(n.izquierdo) =~= Map::empty());
                assert(contenido(n.derecho) =~= Map::empty());
                assert(contenido(bt).remove(k) =~= Map::empty());
            } else if n.izquierdo is None {
                assert(contenido(n.izquierdo) =~= Map::empty());
                assert(contenido(n.derecho) =~= contenido(bt).remove(k));
            } else if n.derecho is None {
                assert(contenido(n.derecho) =~= Map::empty());
                assert(contenido(n.izquierdo) =~= contenido(bt).remove(k));
            } else {
                let l = *n.izquierdo.unwrap();
                assert(es_abb(Some(Box::new(l))));
                lema_maximo_derecho(l);
                let p = maximo_derecho(l);
                lema_eliminacion(n.izquierdo, p.altitud);
                let n1 = Nodo {
                    vuelo: p,
                    izquierdo: eliminacion_arbol(n.izquierdo, p.altitud),
                    derecho: n.derecho,
                    altura: n.altura,
                };
                lema_tras_eliminar(n, n1, k);
                lema_rebalanceo_eliminacion(con_altura(n1), n, k);
            }
        },
    }
}

/// Removes the flight at the given altitude from the AVL subtree `nodo_opt`, keeping it
/// ordered and balanced, and returns the new root. A node with two children takes the
/// flight of its in-order predecessor, which is then removed from the left subtree.
pub fn eliminar_vuelo(nodo_opt: Option<Box<Nodo>>, altitud: u32) -> (r: Option<Box<Nodo>>)
    requires
        bien_formado(nodo_opt),
    ensures
        r == eliminacion_arbol(nodo_opt, altitud),
        bien_formado(r),
        contenido(r) == contenido(nodo_opt).remove(altitud),
        altura(nodo_opt) - 1 <= altura(r) <= altura(nodo_opt),
        !contenido(nodo_opt).contains_key(altitud) ==> r == nodo_opt,
    decreases nodo_opt,
{
    let mut nodo = match nodo_opt {
        None => {
            proof {
                assert(contenido(nodo_opt) =~= contenido(nodo_opt).remove(altitud));
            }
            return None;
        },
        Some(n) => n,
    };
    let ghost t = *nodo;
    proof {
        lema_campo_es_altura(t.izquierdo);
        lema_campo_es_altura(t.derecho);
    }
    if altitud < nodo.vuelo.altitud {
        nodo.izquierdo = eliminar_vuelo(nodo.izquierdo.take(), altitud);
    } else if altitud > nodo.vuelo.altitud {
        nodo.derecho = eliminar_vuelo(nodo.derecho.take(), altitud);
    } else {
        // A leaf: it simply goes.
        if nodo.izquierdo.is_none() && nodo.derecho.is_none() {
            proof {
                assert(contenido(t.izquierdo) =~= Map::empty());
                assert(contenido(t.derecho) =~= Map::empty());
                assert(contenido(Some(Box::new(t))).remove(altitud) =~= Map::empty());
            }
            return None;
        }
        // One child: it takes the node's place.
        if nodo.izquierdo.is_none() {
            proof {
                assert(contenido(t.izquierdo) =~= Map::empty());
                assert(contenido(t.derecho) =~= contenido(Some(Box::new(t))).remove(altitud));
            }
            return nodo.derecho.take();
        }
        if nodo.derecho.is_none() {
            proof {
                assert(contenido(t.derecho) =~= Map::empty());
                assert(contenido(t.izquierdo) =~= contenido(Some(Box::new(t))).remove(altitud));
            }
            return nodo.izquierdo.take();
        }
        // Two children: the in-order predecessor takes the node's place.
        let predecesor = obtener_maximo(nodo.izquierdo.as_ref().unwrap());
        let alt_predecesor = predecesor.altitud;
        nodo.vuelo = predecesor;
        nodo.izquierdo = eliminar_vuelo(nodo.izquierdo.take(), alt_predecesor);
    }
    proof {
        lema_tras_eliminar(t, *nodo, altitud);
    }
    actualizar_altura(&mut *nodo);
    let balance = obtener_balance(&*nodo);
    // Left-left case: a single right rotation.
    if balance > 1 && obtener_balance(nodo.izquierdo.as_ref().unwrap()) >= 0 {
        proof {
            lema_eliminar_simple_derecha(*nodo, t, altitud);
        }
        return Some(rotar_derecha(nodo));
    }
    // Left-right case: a double rotation.
    if balance > 1 && obtener_balance(nodo.izquierdo.as_ref().unwrap()) < 0 {
        let ghost n2 = *nodo;
        proof {
            lema_eliminar_doble_derecha(n2, t, altitud);
        }
        let hijo_izq = nodo.izquierdo.take().unwrap();
        nodo.izquierdo = Some(rotar_izquierda(hijo_izq));
        proof {
            assert(*nodo == con_izquierdo(n2, Some(Box::new(rotacion_izquierda(*n2.izquierdo.unwrap())))));
        }
        return Some(rotar_derecha(nodo));
    }
    // Right-right case: a single left rotation.
    if balance < -1 && obtener_balance(nodo.derecho.as_ref().unwrap()) <= 0 {
        proof {
            lema_eliminar_simple_izquierda(*nodo, t, altitud);
        }
        return Some(rotar_izquierda(nodo));
    }
    // Right-left case: a double rotation.
    if balance < -1 && obtener_balance(nodo.derecho.as_ref().unwrap()) > 0 {
        let ghost n2 = *nodo;
        proof {
            lema_eliminar_doble_izquierda(n2, t, altitud);
        }
        let hijo_der = nodo.derecho.take().unwrap();
        nodo.derecho = Some(rotar_derecha(hijo_der));
        proof {
            assert(*nodo == con_derecho(n2, Some(Box::new(rotacion_derecha(*n2.derecho.unwrap())))));
        }
        return Some(rotar_izquierda(nodo));
    }
    proof {
        lema_eliminar_sin_rotacion(*nodo, t, altitud);
    }
    Some(nodo)
}

} // verus!
