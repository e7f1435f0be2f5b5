//! Single rotations, what they keep (contents and order), and when they yield an AVL tree.

use vstd::prelude::*;
use crate::modelo::{Nodo, actualizar_altura, altura, campo_altura, con_altura, contenido, es_abb, es_avl, maximo, lema_campo_es_altura};

verus! {

/// The subtree that a right rotation at `y` produces: the left child `x` rises, `y` becomes
/// its right child and takes over `x`'s former right subtree.
pub open spec fn rotacion_derecha(y: Nodo) -> Nodo {
    let x = *y.izquierdo.unwrap();
    let y2 = con_altura(
        Nodo { vuelo: y.vuelo, izquierdo: x.derecho, derecho: y.derecho, altura: y.altura },
    );
    con_altura(
        Nodo { vuelo: x.vuelo, izquierdo: x.izquierdo, derecho: Some(Box::new(y2)), altura: x.altura },
    )
}

/// The subtree that a left rotation at `x` produces: the right child `y` rises, `x` becomes
/// its left child and takes over `y`'s former left subtree.
pub open spec fn rotacion_izquierda(x: Nodo) -> Nodo {
    let y = *x.derecho.unwrap();
    let x2 = con_altura(
        Nodo { vuelo: x.vuelo, izquierdo: x.izquierdo, derecho: y.izquierdo, altura: x.altura },
    );
    con_altura(
        Nodo { vuelo: y.vuelo, izquierdo: Some(Box::new(x2)), derecho: y.derecho, altura: y.altura },
    )
}

/// The stored heights met by a right rotation at `y` fit in an `i32` when recomputed.
pub open spec fn cabe_rotacion_derecha(y: Nodo) -> bool {
    let x = *y.izquierdo.unwrap();
    let m = maximo(campo_altura(x.derecho), campo_altura(y.derecho));
    &&& m < i32::MAX
    &&& maximo(campo_altura(x.izquierdo), 1 + m) < i32::MAX
}

/// The stored heights met by a left rotation at `x` fit in an `i32` when recomputed.
pub open spec fn cabe_rotacion_izquierda(x: Nodo) -> bool {
    let y = *x.derecho.unwrap();
    let m = maximo(campo_altura(x.izquierdo), campo_altura(y.izquierdo));
    &&& m < i32::MAX
    &&& maximo(1 + m, campo_altura(y.derecho)) < i32::MAX
}

/// Simple right rotation (the left-left case).
///
///       y                x
///      / \             /   \
///     x   T3   ->     T1    y
///    / \                   / \
///   T1  T2               T2  T3
pub fn rotar_derecha(y: Box<Nodo>) -> (x: Box<Nodo>)
    requires
        y.izquierdo is Some,
        cabe_rotacion_derecha(*y),
    ensures
        *x == rotacion_derecha(*y),
{
    let mut y = y;
    let mut x = y.izquierdo.take().unwrap();
    y.izquierdo = x.derecho.take();
    actualizar_altura(&mut *y);
    x.derecho = Some(y);
    actualizar_altura(&mut *x);
    x
}

/// Simple left rotation (the right-right case).
///
///     x                  y
///    / \               /   \
///   T1  y      ->     x    T3
///      / \           / \
///     T2  T3        T1  T2
pub fn rotar_izquierda(x: Box<Nodo>) -> (y: Box<Nodo>)
    requires
        x.derecho is Some,
        cabe_rotacion_izquierda(*x),
    ensures
        *y == rotacion_izquierda(*x),
{
    let mut x = x;
    let mut y = x.derecho.take().unwrap();
    x.derecho = y.izquierdo.take();
    actualizar_altura(&mut *x);
    y.izquierdo = Some(x);
    actualizar_altura(&mut *y);
    y
}

/// A node whose subtrees are AVL, differ in height by at most one, and whose stored height
/// is recomputed, is AVL with height one more than its taller subtree.
pub proof fn lema_nodo_avl(n: Nodo)
    requires
        es_avl(n.izquierdo),
        es_avl(n.derecho),
        altura(n.izquierdo) <= altura(n.derecho) + 1,
        altura(n.derecho) <= altura(n.izquierdo) + 1,
        1 + maximo(altura(n.izquierdo) as int, altura(n.derecho) as int) <= i32::MAX,
    ensures
        es_avl(Some(Box::new(con_altura(n)))),
        altura(Some(Box::new(con_altura(n)))) == 1 + maximo(
            altura(n.izquierdo) as int,
            altura(n.derecho) as int,
        ),
{
    lema_campo_es_altura(n.izquierdo);
    lema_campo_es_altura(n.derecho);
}

/// A right rotation keeps the contents of an ordered subtree and keeps it ordered.
pub proof fn lema_rotacion_derecha_conserva(y: Nodo)
    requires
        y.izquierdo is Some,
        es_abb(Some(Box::new(y))),
    ensures
        es_abb(Some(Box::new(rotacion_derecha(y)))),
        contenido(Some(Box::new(rotacion_derecha(y)))) == contenido(Some(Box::new(y))),
{
    let x = *y.izquierdo.unwrap();
    let (a, b, c) = (x.izquierdo, x.derecho, y.derecho);
    let (xk, yk) = (x.vuelo.altitud, y.vuelo.altitud);
    let y2 = con_altura(Nodo { vuelo: y.vuelo, izquierdo: b, derecho: c, altura: y.altura });
    let r = rotacion_derecha(y);
    assert(es_abb(Some(Box::new(x))));
    assert(contenido(Some(Box::new(x))) == contenido(a).union_prefer_right(contenido(b)).insert(
        xk,
        x.vuelo.id@,
    ));
    assert forall|k: u32| #[trigger] contenido(b).contains_key(k) implies k < yk by {
        assert(contenido(Some(Box::new(x))).contains_key(k));
    }
    assert(xk < yk) by {
        assert(contenido(Some(Box::new(x))).contains_key(xk));
    }
    assert forall|k: u32| #[trigger] contenido(c).contains_key(k) implies yk < k by {
    }
    assert(es_abb(Some(Box::new(y2))));
    assert(contenido(Some(Box::new(y2))) == contenido(b).union_prefer_right(contenido(c)).insert(
        yk,
        y.vuelo.id@,
    ));
    assert forall|k: u32| #[trigger] contenido(Some(Box::new(y2))).contains_key(k) implies xk < k by {
        if contenido(b).contains_key(k) {
            assert(contenido(Some(Box::new(x))).contains_key(k));
        }
    }
    assert(es_abb(Some(Box::new(r))));
    assert(contenido(Some(Box::new(r))) =~= contenido(Some(Box::new(y))));
}

/// A left rotation keeps the contents of an ordered subtree and keeps it ordered.
pub proof fn lema_rotacion_izquierda_conserva(x: Nodo)
    requires
        x.derecho is Some,
        es_abb(Some(Box::new(x))),
    ensures
        es_abb(Some(Box::new(rotacion_izquierda(x)))),
        contenido(Some(Box::new(rotacion_izquierda(x)))) == contenido(Some(Box::new(x))),
{
    let y = *x.derecho.unwrap();
    let (a, b, c) = (x.izquierdo, y.izquierdo, y.derecho);
    let (xk, yk) = (x.vuelo.altitud, y.vuelo.altitud);
    let x2 = con_altura(Nodo { vuelo: x.vuelo, izquierdo: a, derecho: b, altura: x.altura });
    let r = rotacion_izquierda(x);
    assert(es_abb(Some(Box::new(y))));
    assert(contenido(Some(Box::new(y))) == contenido(b).union_prefer_right(contenido(c)).insert(
        yk,
        y.vuelo.id@,
    ));
    assert forall|k: u32| #[trigger] contenido(b).contains_key(k) implies xk < k by {
        assert(contenido(Some(Box::new(y))).contains_key(k));
    }
    assert(xk < yk) by {
        assert(contenido(Some(Box::new(y))).contains_key(yk));
    }
    assert forall|k: u32| #[trigger] contenido(a).contains_key(k) implies k < xk by {
    }
    assert(es_abb(Some(Box::new(x2))));
    assert(contenido(Some(Box::new(x2))) == contenido(a).union_prefer_right(contenido(b)).insert(
        xk,
        x.vuelo.id@,
    ));
    assert forall|k: u32| #[trigger] contenido(Some(Box::new(x2))).contains_key(k) implies k < yk by {
        if contenido(b).contains_key(k) {
            assert(contenido(Some(Box::new(y))).contains_key(k));
        }
    }
    assert(es_abb(Some(Box::new(r))));
    assert(contenido(Some(Box::new(r))) =~= contenido(Some(Box::new(x))));
}

/// A right rotation yields an AVL subtree when the three subtrees it regroups are AVL and
/// their heights fit together.
pub proof fn lema_rotacion_derecha_avl(y: Nodo)
    requires
        y.izquierdo is Some,
        es_avl((*y.izquierdo.unwrap()).izquierdo),
        es_avl((*y.izquierdo.unwrap()).derecho),
        es_avl(y.derecho),
        ({
            let ha = altura((*y.izquierdo.unwrap()).izquierdo) as int;
            let hb = altura((*y.izquierdo.unwrap()).derecho) as int;
            let hc = altura(y.derecho) as int;
            &&& hb <= hc + 1
            &&& hc <= hb + 1
            &&& ha <= 1 + maximo(hb, hc) + 1
            &&& 1 + maximo(hb, hc) <= ha + 1
            &&& 1 + maximo(ha, 1 + maximo(hb, hc)) <= i32::MAX
        }),
    ensures
        cabe_rotacion_derecha(y),
        es_avl(Some(Box::new(rotacion_derecha(y)))),
        altura(Some(Box::new(rotacion_derecha(y)))) == 1 + maximo(
            altura((*y.izquierdo.unwrap()).izquierdo) as int,
            1 + maximo(
                altura((*y.izquierdo.unwrap()).derecho) as int,
                altura(y.derecho) as int,
            ),
        ),
{
    let x = *y.izquierdo.unwrap();
    lema_campo_es_altura(x.izquierdo);
    lema_campo_es_altura(x.derecho);
    lema_campo_es_altura(y.derecho);
    let y2 = Nodo { vuelo: y.vuelo, izquierdo: x.derecho, derecho: y.derecho, altura: y.altura };
    lema_nodo_avl(y2);
    let t = Nodo {
        vuelo: x.vuelo,
        izquierdo: x.izquierdo,
        derecho: Some(Box::new(con_altura(y2))),
        altura: x.altura,
    };
    lema_nodo_avl(t);
}

/// A left rotation yields an AVL subtree when the three subtrees it regroups are AVL and
/// their heights fit together.
pub proof fn lema_rotacion_izquierda_avl(x: Nodo)
    requires
        x.derecho is Some,
        es_avl(x.izquierdo),
        es_avl((*x.derecho.unwrap()).izquierdo),
        es_avl((*x.derecho.unwrap()).derecho),
        ({
            let ha = altura(x.izquierdo) as int;
            let hb = altura((*x.derecho.unwrap()).izquierdo) as int;
            let hc = altura((*x.derecho.unwrap()).derecho) as int;
            &&& ha <= hb + 1
            &&& hb <= ha + 1
            &&& hc <= 1 + maximo(ha, hb) + 1
            &&& 1 + maximo(ha, hb) <= hc + 1
            &&& 1 + maximo(1 + maximo(ha, hb), hc) <= i32::MAX
        }),
    ensures
        cabe_rotacion_izquierda(x),
        es_avl(Some(Box::new(rotacion_izquierda(x)))),
        altura(Some(Box::new(rotacion_izquierda(x)))) == 1 + maximo(
            1 + maximo(altura(x.izquierdo) as int, altura((*x.derecho.unwrap()).izquierdo) as int),
            altura((*x.derecho.unwrap()).derecho) as int,
        ),
{
    let y = *x.derecho.unwrap();
    lema_campo_es_altura(x.izquierdo);
    lema_campo_es_altura(y.izquierdo);
    lema_campo_es_altura(y.derecho);
    let x2 = Nodo { vuelo: x.vuelo, izquierdo: x.izquierdo, derecho: y.izquierdo, altura: x.altura };
    lema_nodo_avl(x2);
    let t = Nodo {
        vuelo: y.vuelo,
        izquierdo: Some(Box::new(con_altura(x2))),
        derecho: y.derecho,
        altura: y.altura,
    };
    lema_nodo_avl(t);
}

/// A left rotation at the left child followed by a right rotation at the node (the
/// left-right case) yields an AVL subtree when the four subtrees it regroups are AVL and
/// their heights fit together.
pub proof fn lema_doble_derecha_avl(y: Nodo)
    requires
        y.izquierdo is Some,
        (*y.izquierdo.unwrap()).derecho is Some,
        ({
            let l = *y.izquierdo.unwrap();
            let m = *l.derecho.unwrap();
            let (ha, hb) = (altura(l.izquierdo) as int, altura(m.izquierdo) as int);
            let (hc, hd) = (altura(m.derecho) as int, altura(y.derecho) as int);
            &&& es_avl(l.izquierdo)
            &&& es_avl(m.izquierdo)
            &&& es_avl(m.derecho)
            &&& es_avl(y.derecho)
            &&& ha <= hb + 1
            &&& hb <= ha + 1
            &&& hc <= hd + 1
            &&& hd <= hc + 1
            &&& maximo(ha, hb) <= maximo(hc, hd) + 1
            &&& maximo(hc, hd) <= maximo(ha, hb) + 1
            &&& 2 + maximo(maximo(ha, hb), maximo(hc, hd)) <= i32::MAX
        }),
    ensures
        ({
            let l = *y.izquierdo.unwrap();
            let m = *l.derecho.unwrap();
            let y2 = Nodo {
                vuelo: y.vuelo,
                izquierdo: Some(Box::new(rotacion_izquierda(l))),
                derecho: y.derecho,
                altura: y.altura,
            };
            &&& cabe_rotacion_izquierda(l)
            &&& cabe_rotacion_derecha(y2)
            &&& es_avl(Some(Box::new(rotacion_derecha(y2))))
            &&& altura(Some(Box::new(rotacion_derecha(y2)))) == 2 + maximo(
                maximo(altura(l.izquierdo) as int, altura(m.izquierdo) as int),
                maximo(altura(m.derecho) as int, altura(y.derecho) as int),
            )
        }),
{
    let l = *y.izquierdo.unwrap();
    let m = *l.derecho.unwrap();
    lema_campo_es_altura(l.izquierdo);
    lema_campo_es_altura(m.izquierdo);
    lema_campo_es_altura(m.derecho);
    let x2 = Nodo { vuelo: l.vuelo, izquierdo: l.izquierdo, derecho: m.izquierdo, altura: l.altura };
    lema_nodo_avl(x2);
    let y2 = Nodo {
        vuelo: y.vuelo,
        izquierdo: Some(Box::new(rotacion_izquierda(l))),
        derecho: y.derecho,
        altura: y.altura,
    };
    assert((*y2.izquierdo.unwrap()).izquierdo == Some(Box::new(con_altura(x2))));
    lema_rotacion_derecha_avl(y2);
}

/// A right rotation at the right child followed by a left rotation at the node (the
/// right-left case) yields an AVL subtree when the four subtrees it regroups are AVL and
/// their heights fit together.
pub proof fn lema_doble_izquierda_avl(x: Nodo)
    requires
        x.derecho is Some,
        (*x.derecho.unwrap()).izquierdo is Some,
        ({
            let r = *x.derecho.unwrap();
            let m = *r.izquierdo.unwrap();
            let (ha, hb) = (altura(x.izquierdo) as int, altura(m.izquierdo) as int);
            let (hc, hd) = (altura(m.derecho) as int, altura(r.derecho) as int);
            &&& es_avl(x.izquierdo)
            &&& es_avl(m.izquierdo)
            &&& es_avl(m.derecho)
            &&& es_avl(r.derecho)
            &&& ha <= hb + 1
            &&& hb <= ha + 1
            &&& hc <= hd + 1
            &&& hd <= hc + 1
            &&& maximo(ha, hb) <= maximo(hc, hd) + 1
            &&& maximo(hc, hd) <= maximo(ha, hb) + 1
            &&& 2 + maximo(maximo(ha, hb), maximo(hc, hd)) <= i32::MAX
        }),
    ensures
        ({
            let r = *x.derecho.unwrap();
            let m = *r.izquierdo.unwrap();
            let x2 = Nodo {
                vuelo: x.vuelo,
                izquierdo: x.izquierdo,
                derecho: Some(Box::new(rotacion_derecha(r))),
                altura: x.altura,
            };
            &&& cabe_rotacion_derecha(r)
            &&& cabe_rotacion_izquierda(x2)
            &&& es_avl(Some(Box::new(rotacion_izquierda(x2))))
            &&& altura(Some(Box::new(rotacion_izquierda(x2)))) == 2 + maximo(
                maximo(altura(x.izquierdo) as int, altura(m.izquierdo) as int),
                maximo(altura(m.derecho) as int, altura(r.derecho) as int),
            )
        }),
{
    let r = *x.derecho.unwrap();
    let m = *r.izquierdo.unwrap();
    lema_campo_es_altura(r.derecho);
    lema_campo_es_altura(m.izquierdo);
    lema_campo_es_altura(m.derecho);
    let y2 = Nodo { vuelo: r.vuelo, izquierdo: m.derecho, derecho: r.derecho, altura: r.altura };
    lema_nodo_avl(y2);
    let x2 = Nodo {
        vuelo: x.vuelo,
        izquierdo: x.izquierdo,
        derecho: Some(Box::new(rotacion_derecha(r))),
        altura: x.altura,
    };
    assert((*x2.derecho.unwrap()).derecho == Some(Box::new(con_altura(y2))));
    lema_rotacion_izquierda_avl(x2);
}

/// The node with its left subtree replaced.
pub open spec fn con_izquierdo(n: Nodo, l: Option<Box<Nodo>>) -> Nodo {
    Nodo { vuelo: n.vuelo, izquierdo: l, derecho: n.derecho, altura: n.altura }
}

/// The node with its right subtree replaced.
pub open spec fn con_derecho(n: Nodo, r: Option<Box<Nodo>>) -> Nodo {
    Nodo { vuelo: n.vuelo, izquierdo: n.izquierdo, derecho: r, altura: n.altura }
}

/// Replacing a subtree by an ordered one with the same contents keeps the node ordered
/// and keeps its contents.
pub proof fn lema_reemplazo_conserva(n: Nodo, t: Option<Box<Nodo>>)
    requires
        es_abb(Some(Box::new(n))),
        es_abb(t),
    ensures
        contenido(t) == contenido(n.izquierdo) ==> {
            &&& es_abb(Some(Box::new(con_izquierdo(n, t))))
            &&& contenido(Some(Box::new(con_izquierdo(n, t)))) == contenido(Some(Box::new(n)))
        },
        contenido(t) == contenido(n.derecho) ==> {
            &&& es_abb(Some(Box::new(con_derecho(n, t))))
            &&& contenido(Some(Box::new(con_derecho(n, t)))) == contenido(Some(Box::new(n)))
        },
{
}

} // verus!
