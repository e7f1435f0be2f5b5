//! Properties of the radar as a whole, stated over the model that the operations'
//! contracts use.

use vstd::prelude::*;
use vstd::arithmetic::power2::{pow2, lemma_pow2_unfold, lemma_pow2_strictly_increases};
use vstd::set_lib::lemma_set_disjoint_lens;
use crate::modelo::{Nodo, Vuelo, altura, balance_de, bien_formado, con_altura, contenido, es_abb, es_avl, tamano};
use crate::insercion::{insercion, insercion_arbol, lema_insercion, lema_insercion_presente};
use crate::eliminacion::{eliminacion_arbol, lema_eliminacion};
use crate::consultas::{busqueda, en_rango, lema_busqueda_contenido, lema_contenido_finito, subarbol_en, camino};
use crate::recorridos::{balances_caben, dibujo, inorden};
use crate::rotaciones::{rotacion_derecha, rotacion_izquierda};

verus! {

/// The in-order listing of an ordered tree comes out in strictly ascending altitude, and it
/// lists exactly the flights the tree holds.
pub proof fn lema_inorden_ordenado(t: Option<Box<Nodo>>)
    requires
        es_abb(t),
    ensures
        forall|i: int, j: int|
            0 <= i < j < inorden(t).len() ==> (#[trigger] inorden(t)[i]).0 < (
            #[trigger] inorden(t)[j]).0,
        forall|i: int|
            0 <= i < inorden(t).len() ==> contenido(t).contains_key(#[trigger] inorden(t)[i].0)
                && contenido(t)[inorden(t)[i].0] == inorden(t)[i].1,
        forall|k: u32|
            #[trigger] contenido(t).contains_key(k) ==> exists|i: int|
                0 <= i < inorden(t).len() && #[trigger] inorden(t)[i].0 == k,
    decreases t,
{
    match t {
        None => {},
        Some(n) => {
            let (l, r) = (n.izquierdo, n.derecho);
            lema_inorden_ordenado(l);
            lema_inorden_ordenado(r);
            let (sl, sr) = (inorden(l), inorden(r));
            let x = (n.vuelo.altitud, n.vuelo.id@, n.altura);
            let s = inorden(t);
            assert(s == sl + seq![x] + sr);
            let nl = sl.len() as int;
            assert forall|i: int| 0 <= i < s.len() implies (i < nl ==> s[i] == sl[i]) && (i
                == nl ==> s[i] == x) && (i > nl ==> s[i] == sr[i - nl - 1]) by {}
            assert forall|i: int| 0 <= i < s.len() implies contenido(t).contains_key(
                #[trigger] s[i].0,
            ) && contenido(t)[s[i].0] == s[i].1 && (i < nl ==> s[i].0 < n.vuelo.altitud) && (i
                > nl ==> n.vuelo.altitud < s[i].0) by {
                if i < nl {
                    assert(contenido(l).contains_key(sl[i].0));
                    assert(!contenido(r).contains_key(sl[i].0));
                } else if i > nl {
                    assert(contenido(r).contains_key(sr[i - nl - 1].0));
                }
            }
            assert forall|i: int, j: int| 0 <= i < j < s.len() implies (#[trigger] s[i]).0 < (
            #[trigger] s[j]).0 by {
                if i < nl && j < nl {
                    assert(sl[i].0 < sl[j].0);
                } else if i > nl && j > nl {
                    assert(sr[i - nl - 1].0 < sr[j - nl - 1].0);
                }
            }
            assert forall|k: u32| #[trigger] contenido(t).contains_key(k) implies exists|i: int|
                0 <= i < s.len() && #[trigger] s[i].0 == k by {
                if k == n.vuelo.altitud {
                    assert(s[nl].0 == k);
                } else if contenido(l).contains_key(k) {
                    let i = choose|i: int| 0 <= i < sl.len() && #[trigger] sl[i].0 == k;
                    assert(s[i].0 == k);
                } else {
                    assert(contenido(r).contains_key(k));
                    let i = choose|i: int| 0 <= i < sr.len() && #[trigger] sr[i].0 == k;
                    assert(s[nl + 1 + i].0 == k);
                }
            }
        },
    }
}

/// An ordered node holds one flight more than its two subtrees together.
proof fn lema_tamano_nodo(n: Nodo)
    requires
        es_abb(Some(Box::new(n))),
    ensures
        contenido(Some(Box::new(n))).dom().len() == contenido(n.izquierdo).dom().len()
            + contenido(n.derecho).dom().len() + 1,
{
    let (l, r) = (contenido(n.izquierdo).dom(), contenido(n.derecho).dom());
    lema_contenido_finito(n.izquierdo);
    lema_contenido_finito(n.derecho);
    assert(l.disjoint(r)) by {
        assert forall|j: u32| l.contains(j) implies !r.contains(j) by {}
    }
    lemma_set_disjoint_lens(l, r);
    assert((l + r).disjoint(set![n.vuelo.altitud]));
    lemma_set_disjoint_lens(l + r, set![n.vuelo.altitud]);
    assert(contenido(Some(Box::new(n))).dom() =~= (l + r) + set![n.vuelo.altitud]);
}

/// An ordered tree has one node per altitude it holds.
pub proof fn lema_tamano_es_contenido(t: Option<Box<Nodo>>)
    requires
        es_abb(t),
    ensures
        tamano(t) == contenido(t).dom().len(),
    decreases t,
{
    match t {
        None => {
            assert(contenido(t).dom() =~= Set::<u32>::empty());
        },
        Some(n) => {
            lema_tamano_es_contenido(n.izquierdo);
            lema_tamano_es_contenido(n.derecho);
            lema_tamano_nodo(*n);
        },
    }
}

/// The in-order listing has one line per node, and so has the drawing, which lists the
/// nodes from right to left: in an ordered tree its altitudes strictly descend.
pub proof fn lema_filas_por_nodo(t: Option<Box<Nodo>>, ramas: Seq<bool>)
    ensures
        inorden(t).len() == tamano(t),
        dibujo(t, ramas).len() == tamano(t),
        es_abb(t) ==> forall|i: int, j: int|
            0 <= i < j < dibujo(t, ramas).len() ==> (#[trigger] dibujo(t, ramas)[i]).1 > (
            #[trigger] dibujo(t, ramas)[j]).1,
        forall|i: int| #![trigger dibujo(t, ramas)[i]]
            0 <= i < dibujo(t, ramas).len() ==> contenido(t).contains_key(dibujo(t, ramas)[i].1),
    decreases t,
{
    match t {
        None => {},
        Some(n) => {
            let (rd, ri) = (ramas.push(true), ramas.push(false));
            lema_filas_por_nodo(n.izquierdo, ri);
            lema_filas_por_nodo(n.derecho, rd);
            let (sd, si) = (dibujo(n.derecho, rd), dibujo(n.izquierdo, ri));
            let s = dibujo(t, ramas);
            let x = s[sd.len() as int];
            let nd = sd.len() as int;
            assert(s == sd + seq![x] + si);
            assert forall|i: int| 0 <= i < s.len() implies contenido(t).contains_key(
                #[trigger] s[i].1,
            ) && (es_abb(t) ==> (i < nd ==> s[i].1 > n.vuelo.altitud) && (i > nd ==> s[i].1
                < n.vuelo.altitud)) by {
                if i < nd {
                    assert(s[i] == sd[i]);
                    assert(contenido(n.derecho).contains_key(sd[i].1));
                } else if i > nd {
                    assert(s[i] == si[i - nd - 1]);
                    assert(contenido(n.izquierdo).contains_key(si[i - nd - 1].1));
                }
            }
            if es_abb(t) {
                assert forall|i: int, j: int| 0 <= i < j < s.len() implies (#[trigger] s[i]).1 > (
                #[trigger] s[j]).1 by {
                    if i < nd && j < nd {
                        assert(s[i] == sd[i] && s[j] == sd[j]);
                    } else if i > nd && j > nd {
                        assert(s[i] == si[i - nd - 1] && s[j] == si[j - nd - 1]);
                    }
                }
            }
        },
    }
}

/// Each line of the drawing of an ordered tree shows the node of the tree at its altitude:
/// the code the radar holds there, the height stored at that node (in a balanced tree, the
/// true height of the subtree below it) and that node's balance factor, sign included; its
/// branch flags are the root's flag followed by the turns taken from the root down to it.
pub proof fn lema_dibujo_muestra_nodos(t: Option<Box<Nodo>>, ramas: Seq<bool>)
    requires
        es_abb(t),
    ensures
        forall|i: int| #![trigger dibujo(t, ramas)[i]]
            0 <= i < dibujo(t, ramas).len() ==> {
                let f = dibujo(t, ramas)[i];
                let s = subarbol_en(t, f.1);
                &&& s is Some
                &&& f.0 == ramas + camino(t, f.1)
                &&& (*s.unwrap()).vuelo.altitud == f.1
                &&& (*s.unwrap()).vuelo.id@ == f.2
                &&& contenido(t).contains_key(f.1)
                &&& contenido(t)[f.1] == f.2
                &&& (*s.unwrap()).altura == f.3
                &&& es_avl(t) ==> f.3 == altura(s)
                &&& balances_caben(t) ==> f.4 == balance_de(*s.unwrap())
            },
        t matches Some(n) ==> forall|i: int| #![trigger dibujo(t, ramas)[i]]
            0 <= i < dibujo(t, ramas).len() && dibujo(t, ramas)[i].1 == n.vuelo.altitud ==> {
                &&& dibujo(t, ramas)[i].2 == n.vuelo.id@
                &&& es_avl(t) ==> dibujo(t, ramas)[i].3 == altura(t)
                &&& balances_caben(t) ==> dibujo(t, ramas)[i].4 == balance_de(*n)
            },
    decreases t,
{
    match t {
        None => {},
        Some(n) => {
            let (rd, ri) = (ramas.push(true), ramas.push(false));
            lema_dibujo_muestra_nodos(n.izquierdo, ri);
            lema_dibujo_muestra_nodos(n.derecho, rd);
            lema_filas_por_nodo(n.izquierdo, ri);
            lema_filas_por_nodo(n.derecho, rd);
            let (sd, si) = (dibujo(n.derecho, rd), dibujo(n.izquierdo, ri));
            let s = dibujo(t, ramas);
            let nd = sd.len() as int;
            let k = n.vuelo.altitud;
            assert(s == sd + seq![s[nd]] + si);
            assert forall|i: int| #![trigger s[i]] 0 <= i < s.len() implies {
                let f = s[i];
                let st = subarbol_en(t, f.1);
                &&& st is Some
                &&& f.0 == ramas + camino(t, f.1)
                &&& (*st.unwrap()).vuelo.altitud == f.1
                &&& (*st.unwrap()).vuelo.id@ == f.2
                &&& contenido(t).contains_key(f.1)
                &&& contenido(t)[f.1] == f.2
                &&& (*st.unwrap()).altura == f.3
                &&& es_avl(t) ==> f.3 == altura(st)
                &&& balances_caben(t) ==> f.4 == balance_de(*st.unwrap())
            } by {
                if i < nd {
                    assert(s[i] == sd[i]);
                    assert(contenido(n.derecho).contains_key(sd[i].1));
                    assert(k < sd[i].1);
                    assert(!contenido(n.izquierdo).contains_key(sd[i].1));
                    assert(rd + camino(n.derecho, sd[i].1) =~= ramas + (seq![true] + camino(
                        n.derecho,
                        sd[i].1,
                    )));
                } else if i > nd {
                    assert(s[i] == si[i - nd - 1]);
                    assert(contenido(n.izquierdo).contains_key(si[i - nd - 1].1));
                    assert(si[i - nd - 1].1 < k);
                    assert(!contenido(n.derecho).contains_key(si[i - nd - 1].1));
                    assert(ri + camino(n.izquierdo, si[i - nd - 1].1) =~= ramas + (seq![false]
                        + camino(n.izquierdo, si[i - nd - 1].1)));
                } else {
                    assert(ramas + camino(t, k) =~= ramas);
                }
            }
        },
    }
}

/// Each line of the in-order listing of an ordered tree shows the height stored at the node
/// of the tree at its altitude; in a balanced tree that is the true height of the subtree
/// below it, so the root's line shows the height of the whole tree.
pub proof fn lema_inorden_muestra_alturas(t: Option<Box<Nodo>>)
    requires
        es_abb(t),
    ensures
        forall|i: int| #![trigger inorden(t)[i]]
            0 <= i < inorden(t).len() ==> {
                let f = inorden(t)[i];
                let s = subarbol_en(t, f.0);
                &&& s is Some
                &&& (*s.unwrap()).vuelo.altitud == f.0
                &&& (*s.unwrap()).vuelo.id@ == f.1
                &&& (*s.unwrap()).altura == f.2
                &&& es_avl(t) ==> f.2 == altura(s)
            },
        t matches Some(n) ==> forall|i: int| #![trigger inorden(t)[i]]
            0 <= i < inorden(t).len() && inorden(t)[i].0 == n.vuelo.altitud && es_avl(t)
                ==> inorden(t)[i].2 == altura(t),
    decreases t,
{
    match t {
        None => {},
        Some(n) => {
            lema_inorden_muestra_alturas(n.izquierdo);
            lema_inorden_muestra_alturas(n.derecho);
            lema_inorden_ordenado(n.izquierdo);
            lema_inorden_ordenado(n.derecho);
            let (sl, sr) = (inorden(n.izquierdo), inorden(n.derecho));
            let s = inorden(t);
            let nl = sl.len() as int;
            let k = n.vuelo.altitud;
            assert(s == sl + seq![s[nl]] + sr);
            assert forall|i: int| #![trigger s[i]] 0 <= i < s.len() implies {
                let f = s[i];
                let st = subarbol_en(t, f.0);
                &&& st is Some
                &&& (*st.unwrap()).vuelo.altitud == f.0
                &&& (*st.unwrap()).vuelo.id@ == f.1
                &&& (*st.unwrap()).altura == f.2
                &&& es_avl(t) ==> f.2 == altura(st)
            } by {
                if i < nl {
                    assert(s[i] == sl[i]);
                    assert(contenido(n.izquierdo).contains_key(sl[i].0));
                    assert(sl[i].0 < k);
                } else if i > nl {
                    assert(s[i] == sr[i - nl - 1]);
                    assert(contenido(n.derecho).contains_key(sr[i - nl - 1].0));
                    assert(k < sr[i - nl - 1].0);
                }
            }
        },
    }
}

/// The height of a well-formed radar grows only logarithmically with the number of flights
/// (which is what makes a search take O(log n) steps): 2 to the power of half the height is
/// at most one more than the number of flights.
pub proof fn lema_altura_logaritmica(t: Option<Box<Nodo>>)
    requires
        bien_formado(t),
    ensures
        pow2(altura(t) / 2) <= contenido(t).dom().len() + 1,
    decreases t,
{
    match t {
        None => {
            assert(pow2(0) == 1) by {
                vstd::arithmetic::power2::lemma_pow2(0);
                reveal(vstd::arithmetic::power::pow);
            }
        },
        Some(n) => {
            let (l, r) = (n.izquierdo, n.derecho);
            lema_altura_logaritmica(l);
            lema_altura_logaritmica(r);
            lema_tamano_nodo(*n);
            let h = altura(t);
            let (hl, hr) = (altura(l), altura(r));
            if h == 1 {
                assert(pow2(0) == 1) by {
                    vstd::arithmetic::power2::lemma_pow2(0);
                    reveal(vstd::arithmetic::power::pow);
                }
            } else {
                // Both subtrees have height at least h - 2, and one of them has height h - 1.
                let e = ((h - 2) / 2) as nat;
                assert(h / 2 == e + 1);
                lemma_pow2_unfold(e + 1);
                assert(pow2(e) <= pow2(hl / 2)) by {
                    if e < hl / 2 {
                        lemma_pow2_strictly_increases(e, hl / 2);
                    }
                }
                assert(pow2(e) <= pow2(hr / 2)) by {
                    if e < hr / 2 {
                        lemma_pow2_strictly_increases(e, hr / 2);
                    }
                }
            }
        },
    }
}

/// The number of nodes the search for altitude `k` visits.
pub open spec fn pasos_busqueda(t: Option<Box<Nodo>>, k: u32) -> nat
    decreases t,
{
    match t {
        None => 0,
        Some(n) => if k == n.vuelo.altitud {
            1
        } else if k < n.vuelo.altitud {
            1 + pasos_busqueda(n.izquierdo, k)
        } else {
            1 + pasos_busqueda(n.derecho, k)
        },
    }
}

/// A search visits at most as many nodes as the tree is high, so on a well-formed radar it
/// takes O(log n) steps (see `lema_altura_logaritmica`).
pub proof fn lema_pasos_busqueda(t: Option<Box<Nodo>>, k: u32)
    ensures
        pasos_busqueda(t, k) <= altura(t),
    decreases t,
{
    match t {
        None => {},
        Some(n) => {
            lema_pasos_busqueda(n.izquierdo, k);
            lema_pasos_busqueda(n.derecho, k);
        },
    }
}

/// Inserting a flight at a free altitude and then removing that altitude gives back the
/// radar's contents.
pub proof fn lema_insertar_luego_eliminar(m: Map<u32, Seq<char>>, k: u32, id: Seq<char>)
    requires
        !m.contains_key(k),
    ensures
        insercion(m, k, id).remove(k) == m,
{
    assert(insercion(m, k, id).remove(k) =~= m);
}

/// A flight inserted at a free altitude is then found there with its code, and a removed
/// altitude is no longer found.
pub proof fn lema_insertado_se_encuentra(m: Map<u32, Seq<char>>, k: u32, id: Seq<char>)
    ensures
        !m.contains_key(k) ==> insercion(m, k, id).contains_key(k) && insercion(m, k, id)[k]
            == id,
        !m.remove(k).contains_key(k),
{
}

/// Each altitude is unique on the radar: once an altitude is taken, a second insertion at
/// it changes nothing, whatever the flight.
pub proof fn lema_altitud_unica(m: Map<u32, Seq<char>>, k: u32, id: Seq<char>, otro: Seq<char>)
    ensures
        insercion(insercion(m, k, id), k, otro) == insercion(m, k, id),
        insercion(m, k, id).contains_key(k),
{
}

/// An insertion or a removal at one altitude leaves every other altitude as it was.
pub proof fn lema_otras_altitudes(m: Map<u32, Seq<char>>, k: u32, id: Seq<char>, j: u32)
    requires
        j != k,
    ensures
        insercion(m, k, id).contains_key(j) == m.contains_key(j),
        m.remove(k).contains_key(j) == m.contains_key(j),
        m.contains_key(j) ==> insercion(m, k, id)[j] == m[j] && m.remove(k)[j] == m[j],
{
}

/// Inserting a flight at a free altitude within a band adds one to the count of flights in
/// that band; any other insertion leaves the count as it was.
pub proof fn lema_rango_tras_insertar(
    m: Map<u32, Seq<char>>,
    k: u32,
    id: Seq<char>,
    min: u32,
    max: u32,
)
    requires
        m.dom().finite(),
    ensures
        en_rango(insercion(m, k, id), min, max).len() == en_rango(m, min, max).len() + if !m.contains_key(
            k,
        ) && min <= k <= max {
            1int
        } else {
            0int
        },
{
    let a = en_rango(m, min, max);
    m.dom().lemma_len_filter(|j: u32| min <= j <= max);
    if !m.contains_key(k) && min <= k <= max {
        assert(en_rango(insercion(m, k, id), min, max) =~= a.insert(k));
    } else {
        assert(en_rango(insercion(m, k, id), min, max) =~= a);
    }
}

/// Removing a flight within a band takes one from the count of flights in that band; any
/// other removal leaves the count as it was.
pub proof fn lema_rango_tras_eliminar(m: Map<u32, Seq<char>>, k: u32, min: u32, max: u32)
    requires
        m.dom().finite(),
    ensures
        en_rango(m.remove(k), min, max).len() == en_rango(m, min, max).len() - if m.contains_key(k)
            && min <= k <= max {
            1int
        } else {
            0int
        },
{
    let a = en_rango(m, min, max);
    m.dom().lemma_len_filter(|j: u32| min <= j <= max);
    if m.contains_key(k) && min <= k <= max {
        assert(en_rango(m.remove(k), min, max) =~= a.remove(k));
    } else {
        assert(en_rango(m.remove(k), min, max) =~= a);
    }
}

/// The widest band counts every flight on the radar.
pub proof fn lema_rango_completo(m: Map<u32, Seq<char>>)
    ensures
        en_rango(m, 0, u32::MAX) == m.dom(),
{
    assert(en_rango(m, 0, u32::MAX) =~= m.dom());
}

/// Inserting a second flight at an altitude just inserted changes nothing.
pub proof fn lema_insertar_dos_veces(t: Option<Box<Nodo>>, v1: Vuelo, v2: Vuelo)
    requires
        bien_formado(t),
        altura(t) < i32::MAX,
        v2.altitud == v1.altitud,
    ensures
        insercion_arbol(Some(Box::new(insercion_arbol(t, v1))), v2) == insercion_arbol(t, v1),
{
    lema_insercion(t, v1);
    lema_insercion_presente(Some(Box::new(insercion_arbol(t, v1))), v2);
}

/// The code the search for altitude `k` finds, if any.
pub open spec fn codigo_buscado(t: Option<Box<Nodo>>, k: u32) -> Option<Seq<char>> {
    match busqueda(t, k) {
        Some(v) => Some(v.id@),
        None => None,
    }
}

/// After inserting a flight at a free altitude the search finds it there, and the search at
/// any other altitude finds what it found before.
pub proof fn lema_buscar_tras_insertar(t: Option<Box<Nodo>>, v: Vuelo, b: u32)
    requires
        bien_formado(t),
        altura(t) < i32::MAX,
        !contenido(t).contains_key(v.altitud),
    ensures
        busqueda(Some(Box::new(insercion_arbol(t, v))), v.altitud) matches Some(w) && w.altitud
            == v.altitud && w.id@ == v.id@,
        b != v.altitud ==> codigo_buscado(Some(Box::new(insercion_arbol(t, v))), b)
            == codigo_buscado(t, b),
{
    let t1 = Some(Box::new(insercion_arbol(t, v)));
    lema_insercion(t, v);
    lema_busqueda_contenido(t1, v.altitud);
    lema_busqueda_contenido(t1, b);
    lema_busqueda_contenido(t, b);
}

/// Inserting a flight at a free altitude and then removing that altitude gives back a
/// well-formed radar with the same flights.
pub proof fn lema_insertar_luego_eliminar_arbol(t: Option<Box<Nodo>>, v: Vuelo)
    requires
        bien_formado(t),
        altura(t) < i32::MAX,
        !contenido(t).contains_key(v.altitud),
    ensures
        bien_formado(eliminacion_arbol(Some(Box::new(insercion_arbol(t, v))), v.altitud)),
        contenido(eliminacion_arbol(Some(Box::new(insercion_arbol(t, v))), v.altitud))
            == contenido(t),
{
    let t1 = Some(Box::new(insercion_arbol(t, v)));
    lema_insercion(t, v);
    lema_eliminacion(t1, v.altitud);
    lema_insertar_luego_eliminar(contenido(t), v.altitud, v.id@);
}

/// Widening a band never lowers the count of flights in it.
pub proof fn lema_rango_monotono(m: Map<u32, Seq<char>>, min: u32, max: u32, min2: u32, max2: u32)
    requires
        m.dom().finite(),
        min2 <= min,
        max <= max2,
    ensures
        en_rango(m, min, max).len() <= en_rango(m, min2, max2).len(),
{
    m.dom().lemma_len_filter(|j: u32| min2 <= j <= max2);
    vstd::set_lib::lemma_len_subset(en_rango(m, min, max), en_rango(m, min2, max2));
}

/// Two adjacent bands together count the flights of the band they make up.
pub proof fn lema_rangos_adyacentes(m: Map<u32, Seq<char>>, a: u32, b: u32, c: u32)
    requires
        m.dom().finite(),
        a <= b < c,
    ensures
        en_rango(m, a, b).len() + en_rango(m, (b + 1) as u32, c).len() == en_rango(m, a, c).len(),
{
    let (x, y) = (en_rango(m, a, b), en_rango(m, (b + 1) as u32, c));
    m.dom().lemma_len_filter(|j: u32| a <= j <= b);
    m.dom().lemma_len_filter(|j: u32| (b + 1) as u32 <= j <= c);
    lemma_set_disjoint_lens(x, y);
    assert(x + y =~= en_rango(m, a, c));
}

/// A left rotation undoes a right rotation of a node whose stored heights, and its left
/// child's, are up to date.
pub proof fn lema_rotaciones_inversas(y: Nodo)
    requires
        y.izquierdo is Some,
        con_altura(*y.izquierdo.unwrap()) == *y.izquierdo.unwrap(),
        con_altura(y) == y,
    ensures
        rotacion_izquierda(rotacion_derecha(y)) == y,
{
}

/// A right rotation undoes a left rotation of a node whose stored heights, and its right
/// child's, are up to date.
pub proof fn lema_rotaciones_inversas_izquierda(x: Nodo)
    requires
        x.derecho is Some,
        con_altura(*x.derecho.unwrap()) == *x.derecho.unwrap(),
        con_altura(x) == x,
    ensures
        rotacion_derecha(rotacion_izquierda(x)) == x,
{
}

} // verus!
