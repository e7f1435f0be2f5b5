//! Read-only queries on the radar: finding a flight and counting flights in an altitude band.

use vstd::prelude::*;
use vstd::set_lib::{lemma_len_subset, lemma_set_disjoint_lens};
use crate::modelo::{Nodo, Vuelo, contenido, es_abb, tamano};

verus! {

/// The flight the search for altitude `k` stops at: at each node it stops on a match and
/// otherwise goes left for a lower altitude and right for a higher one.
pub open spec fn busqueda(t: Option<Box<Nodo>>, k: u32) -> Option<Vuelo>
    decreases t,
{
    match t {
        None => None,
        Some(n) => if k == n.vuelo.altitud {
            Some(n.vuelo)
        } else if k < n.vuelo.altitud {
            busqueda(n.izquierdo, k)
        } else {
            busqueda(n.derecho, k)
        },
    }
}

/// The subtree rooted at the node that the search for altitude `k` stops at.
pub open spec fn subarbol_en(t: Option<Box<Nodo>>, k: u32) -> Option<Box<Nodo>>
    decreases t,
{
    match t {
        None => None,
        Some(n) => if k == n.vuelo.altitud {
            t
        } else if k < n.vuelo.altitud {
            subarbol_en(n.izquierdo, k)
        } else {
            subarbol_en(n.derecho, k)
        },
    }
}

/// The turns the search for altitude `k` takes on its way down: `true` for each step to a
/// right subtree, `false` for each step to a left one.
pub open spec fn camino(t: Option<Box<Nodo>>, k: u32) -> Seq<bool>
    decreases t,
{
    match t {
        None => Seq::empty(),
        Some(n) => if k == n.vuelo.altitud {
            Seq::empty()
        } else if k < n.vuelo.altitud {
            seq![false] + camino(n.izquierdo, k)
        } else {
            seq![true] + camino(n.derecho, k)
        },
    }
}

/// The flight `v` is held by some node of `t`.
pub open spec fn pertenece(t: Option<Box<Nodo>>, v: Vuelo) -> bool
    decreases t,
{
    match t {
        None => false,
        Some(n) => n.vuelo == v || pertenece(n.izquierdo, v) || pertenece(n.derecho, v),
    }
}

/// What the search stops at is a flight of the tree at the altitude searched for.
pub proof fn lema_busqueda_pertenece(t: Option<Box<Nodo>>, k: u32)
    ensures
        busqueda(t, k) matches Some(v) ==> v.altitud == k && pertenece(t, v),
    decreases t,
{
    match t {
        None => {},
        Some(n) => {
            lema_busqueda_pertenece(n.izquierdo, k);
            lema_busqueda_pertenece(n.derecho, k);
        },
    }
}

/// In an ordered tree the search finds a flight exactly when its altitude is on the radar,
/// and then it is the flight the radar holds there.
pub proof fn lema_busqueda_contenido(t: Option<Box<Nodo>>, k: u32)
    requires
        es_abb(t),
    ensures
        match busqueda(t, k) {
            Some(v) => contenido(t).contains_key(k) && v.altitud == k && v.id@ == contenido(t)[k],
            None => !contenido(t).contains_key(k),
        },
    decreases t,
{
    match t {
        None => {},
        Some(n) => {
            lema_busqueda_contenido(n.izquierdo, k);
            lema_busqueda_contenido(n.derecho, k);
            if k < n.vuelo.altitud {
                assert(!contenido(n.derecho).contains_key(k));
            } else if n.vuelo.altitud < k {
                assert(!contenido(n.izquierdo).contains_key(k));
            }
        },
    }
}

/// Finds the flight at the given altitude, walking down one side at each node.
/// On an ordered tree it finds the flight exactly when the altitude is on the radar.
pub fn buscar_vuelo<'a>(nodo: &'a Option<Box<Nodo>>, altitud: u32) -> (r: Option<&'a Vuelo>)
    ensures
        match r {
            Some(v) => busqueda(*nodo, altitud) == Some(*v),
            None => busqueda(*nodo, altitud) is None,
        },
        r matches Some(v) ==> pertenece(*nodo, *v),
        es_abb(*nodo) ==> match r {
            Some(v) => {
                &&& contenido(*nodo).contains_key(altitud)
                &&& v.altitud == altitud
                &&& v.id@ == contenido(*nodo)[altitud]
            },
            None => !contenido(*nodo).contains_key(altitud),
        },
        r matches Some(v) ==> v.altitud == altitud,
    decreases *nodo,
{
    proof {
        lema_busqueda_pertenece(*nodo, altitud);
    }
    match nodo {
        None => None,
        Some(n) => {
            if altitud == n.vuelo.altitud {
                Some(&n.vuelo)
            } else if altitud < n.vuelo.altitud {
                proof {
                    assert(es_abb(*nodo) ==> !contenido(n.derecho).contains_key(altitud));
                }
                buscar_vuelo(&n.izquierdo, altitud)
            } else {
                proof {
                    assert(es_abb(*nodo) ==> !contenido(n.izquierdo).contains_key(altitud));
                }
                buscar_vuelo(&n.derecho, altitud)
            }
        },
    }
}

/// The altitudes on the radar that lie in the band `[min, max]`.
pub open spec fn en_rango(m: Map<u32, Seq<char>>, min: u32, max: u32) -> Set<u32> {
    m.dom().filter(|k: u32| min <= k <= max)
}

/// The contents of a tree are finite.
pub proof fn lema_contenido_finito(t: Option<Box<Nodo>>)
    ensures
        contenido(t).dom().finite(),
    decreases t,
{
    match t {
        None => {},
        Some(n) => {
            lema_contenido_finito(n.izquierdo);
            lema_contenido_finito(n.derecho);
            assert(contenido(t).dom() =~= contenido(n.izquierdo).dom().union(
                contenido(n.derecho).dom(),
            ).insert(n.vuelo.altitud));
        },
    }
}

/// How the altitudes of an ordered node in a band split between its two subtrees and the
/// node itself.
proof fn lema_rango_nodo(n: Nodo, min: u32, max: u32)
    requires
        es_abb(Some(Box::new(n))),
    ensures
        ({
            let s = contenido(Some(Box::new(n)));
            let (l, r) = (contenido(n.izquierdo), contenido(n.derecho));
            let k = n.vuelo.altitud;
            &&& en_rango(s, min, max).len() == en_rango(l, min, max).len() + en_rango(
                r,
                min,
                max,
            ).len() + if min <= k <= max {
                1int
            } else {
                0int
            }
            &&& k < min ==> en_rango(l, min, max).len() == 0
            &&& max < k ==> en_rango(r, min, max).len() == 0
            &&& en_rango(s, min, max).len() <= s.dom().len()
            &&& l.dom().len() <= s.dom().len()
            &&& r.dom().len() <= s.dom().len()
        }),
{
    let s = contenido(Some(Box::new(n)));
    let (l, r) = (contenido(n.izquierdo), contenido(n.derecho));
    let k = n.vuelo.altitud;
    lema_contenido_finito(Some(Box::new(n)));
    lema_contenido_finito(n.izquierdo);
    lema_contenido_finito(n.derecho);
    let fl = en_rango(l, min, max);
    let fr = en_rango(r, min, max);
    let fk = set![k].filter(|j: u32| min <= j <= max);
    s.dom().lemma_len_filter(|j: u32| min <= j <= max);
    l.dom().lemma_len_filter(|j: u32| min <= j <= max);
    r.dom().lemma_len_filter(|j: u32| min <= j <= max);
    assert(fl.disjoint(fr)) by {
        assert forall|j: u32| fl.contains(j) implies !fr.contains(j) by {
            assert(l.contains_key(j));
        }
    }
    lemma_set_disjoint_lens(fl, fr);
    if min <= k <= max {
        assert(fk =~= set![k]);
    } else {
        assert(fk =~= Set::<u32>::empty());
    }
    assert((fl + fr).disjoint(fk)) by {
        assert forall|j: u32| (fl + fr).contains(j) implies !fk.contains(j) by {
            if fl.contains(j) {
                assert(l.contains_key(j));
            } else {
                assert(r.contains_key(j));
            }
        }
    }
    lemma_len_subset(fl + fr, s.dom());
    lemma_set_disjoint_lens(fl + fr, fk);
    assert(en_rango(s, min, max) =~= (fl + fr) + fk);
    if k < min {
        assert(fl =~= Set::<u32>::empty()) by {
            assert forall|j: u32| !fl.contains(j) by {
                if l.contains_key(j) {
                    assert(j < k);
                }
            }
        }
    }
    if max < k {
        assert(fr =~= Set::<u32>::empty()) by {
            assert forall|j: u32| !fr.contains(j) by {
                if r.contains_key(j) {
                    assert(k < j);
                }
            }
        }
    }
    lemma_len_subset(l.dom(), s.dom());
    lemma_len_subset(r.dom(), s.dom());
}

/// The count made by walking the tree and skipping a node's left subtree when the node is
/// below the band and its right subtree when it is above.
pub open spec fn cuenta_podada(t: Option<Box<Nodo>>, min: u32, max: u32) -> nat
    decreases t,
{
    match t {
        None => 0,
        Some(n) => if n.vuelo.altitud < min {
            cuenta_podada(n.derecho, min, max)
        } else if n.vuelo.altitud > max {
            cuenta_podada(n.izquierdo, min, max)
        } else {
            1 + cuenta_podada(n.izquierdo, min, max) + cuenta_podada(n.derecho, min, max)
        },
    }
}

/// Counts the flights whose altitude lies in the band `[min, max]`, skipping the subtrees
/// that lie entirely outside the band. On an ordered tree that is the number of altitudes of
/// the radar in the band.
pub fn vuelos_en_rango(nodo: &Option<Box<Nodo>>, min: u32, max: u32) -> (c: usize)
    requires
        tamano(*nodo) <= usize::MAX,
    ensures
        c == cuenta_podada(*nodo, min, max),
        es_abb(*nodo) ==> c == en_rango(contenido(*nodo), min, max).len(),
        max < min ==> c == 0,
        c <= tamano(*nodo),
    decreases *nodo,
{
    match nodo {
        None => {
            proof {
                assert(en_rango(contenido(*nodo), min, max) =~= Set::<u32>::empty());
            }
            0
        },
        Some(n) => {
            proof {
                if es_abb(*nodo) {
                    lema_rango_nodo(**n, min, max);
                }
            }
            if n.vuelo.altitud < min {
                vuelos_en_rango(&n.derecho, min, max)
            } else if n.vuelo.altitud > max {
                vuelos_en_rango(&n.izquierdo, min, max)
            } else {
                1 + vuelos_en_rango(&n.izquierdo, min, max) + vuelos_en_rango(&n.derecho, min, max)
            }
        },
    }
}

} // verus!
