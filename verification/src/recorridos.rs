//! Traversals that lay out the radar for display: the in-order listing and the sideways
//! drawing of the tree. Turning the rows into text is left to the caller.

use vstd::prelude::*;
use crate::modelo::{Nodo, Vuelo, balance_de, es_avl, lema_balance_acotado, obtener_balance};

verus! {

/// One line of the in-order listing: a flight and the height stored at its node.
pub struct FilaInorden {
    pub vuelo: Vuelo,
    pub altura: i32,
}

/// What a line of the in-order listing shows: altitude, flight code and stored height.
pub open spec fn vista_inorden(f: FilaInorden) -> (u32, Seq<char>, i32) {
    (f.vuelo.altitud, f.vuelo.id@, f.altura)
}

/// The in-order listing of a tree: left subtree, node, right subtree.
pub open spec fn inorden(t: Option<Box<Nodo>>) -> Seq<(u32, Seq<char>, i32)>
    decreases t,
{
    match t {
        None => Seq::empty(),
        Some(n) => inorden(n.izquierdo) + seq![(n.vuelo.altitud, n.vuelo.id@, n.altura)] + inorden(
            n.derecho,
        ),
    }
}

/// A copy of a flight.
fn copiar_vuelo(v: &Vuelo) -> (r: Vuelo)
    ensures
        r == *v,
{
    Vuelo { id: v.id.clone(), altitud: v.altitud }
}

fn inorder_en(nodo: &Option<Box<Nodo>>, salida: &mut Vec<FilaInorden>)
    ensures
        final(salida)@.map_values(|f: FilaInorden| vista_inorden(f)) == old(salida)@.map_values(
            |f: FilaInorden| vista_inorden(f),
        ) + inorden(*nodo),
    decreases *nodo,
{
    match nodo {
        None => {
            proof {
                assert(salida@.map_values(|f: FilaInorden| vista_inorden(f)) =~= salida@.map_values(
                    |f: FilaInorden| vista_inorden(f),
                ) + inorden(*nodo));
            }
        },
        Some(n) => {
            let ghost s0 = salida@.map_values(|f: FilaInorden| vista_inorden(f));
            inorder_en(&n.izquierdo, salida);
            let ghost s1 = salida@.map_values(|f: FilaInorden| vista_inorden(f));
            salida.push(FilaInorden { vuelo: copiar_vuelo(&n.vuelo), altura: n.altura });
            let ghost s2 = salida@.map_values(|f: FilaInorden| vista_inorden(f));
            proof {
                assert(s2 =~= s1 + seq![(n.vuelo.altitud, n.vuelo.id@, n.altura)]);
            }
            inorder_en(&n.derecho, salida);
            proof {
                assert(salida@.map_values(|f: FilaInorden| vista_inorden(f)) =~= s0 + inorden(
                    *nodo,
                ));
            }
        },
    }
}

/// The in-order listing (ascending altitude) of the flights of a tree, each with the height
/// stored at its node.
pub fn inorder(nodo: &Option<Box<Nodo>>) -> (filas: Vec<FilaInorden>)
    ensures
        filas@.map_values(|f: FilaInorden| vista_inorden(f)) == inorden(*nodo),
{
    let mut filas: Vec<FilaInorden> = Vec::new();
    proof {
        assert(filas@.map_values(|f: FilaInorden| vista_inorden(f)) =~= Seq::<
            (u32, Seq<char>, i32),
        >::empty());
    }
    inorder_en(nodo, &mut filas);
    proof {
        assert(Seq::<(u32, Seq<char>, i32)>::empty() + inorden(*nodo) =~= inorden(*nodo));
    }
    filas
}

/// One line of the sideways drawing of a tree: the branch taken at each level from the
/// root call down to the node (`true` is the flag the drawing passes down to a right subtree,
/// `false` the one it passes to a left subtree), the flight, the stored height and the balance factor.
pub struct FilaArbol {
    pub ramas: Vec<bool>,
    pub vuelo: Vuelo,
    pub altura: i32,
    pub balance: i32,
}

/// Every node's balance factor (left stored height minus right stored height) fits in an
/// `i32`, so the drawing can compute it.
pub open spec fn balances_caben(t: Option<Box<Nodo>>) -> bool
    decreases t,
{
    match t {
        None => true,
        Some(n) => {
            &&& i32::MIN <= balance_de(*n) <= i32::MAX
            &&& balances_caben(n.izquierdo)
            &&& balances_caben(n.derecho)
        },
    }
}

/// In an AVL tree every balance factor fits.
pub proof fn lema_avl_balances_caben(t: Option<Box<Nodo>>)
    requires
        es_avl(t),
    ensures
        balances_caben(t),
    decreases t,
{
    match t {
        None => {},
        Some(n) => {
            lema_balance_acotado(t);
            lema_avl_balances_caben(n.izquierdo);
            lema_avl_balances_caben(n.derecho);
        },
    }
}

/// What a line of the drawing shows.
pub open spec fn vista_arbol(f: FilaArbol) -> (Seq<bool>, u32, Seq<char>, i32, i32) {
    (f.ramas@, f.vuelo.altitud, f.vuelo.id@, f.altura, f.balance)
}

/// The lines of the sideways drawing, top to bottom: the right subtree (drawn with the flag
/// `true`), the node, then the left subtree (drawn with the flag `false`).
pub open spec fn dibujo(t: Option<Box<Nodo>>, ramas: Seq<bool>) -> Seq<
    (Seq<bool>, u32, Seq<char>, i32, i32),
>
    decreases t,
{
    match t {
        None => Seq::empty(),
        Some(n) => dibujo(n.derecho, ramas.push(true)) + seq![
            (ramas, n.vuelo.altitud, n.vuelo.id@, n.altura, balance_de(*n) as i32),
        ] + dibujo(n.izquierdo, ramas.push(false)),
    }
}

fn copiar_ramas(r: &Vec<bool>) -> (c: Vec<bool>)
    ensures
        c@ == r@,
{
    let mut c: Vec<bool> = Vec::new();
    let mut i: usize = 0;
    while i < r.len()
        invariant
            i <= r.len(),
            c@ == r@.subrange(0, i as int),
        decreases r.len() - i,
    {
        c.push(r[i]);
        i = i + 1;
        proof {
            assert(c@ =~= r@.subrange(0, i as int));
        }
    }
    proof {
        assert(r@.subrange(0, r@.len() as int) =~= r@);
    }
    c
}

fn imprimir_en(nodo: &Option<Box<Nodo>>, ramas: &mut Vec<bool>, salida: &mut Vec<FilaArbol>)
    requires
        balances_caben(*nodo),
    ensures
        final(ramas)@ == old(ramas)@,
        final(salida)@.map_values(|f: FilaArbol| vista_arbol(f)) == old(salida)@.map_values(
            |f: FilaArbol| vista_arbol(f),
        ) + dibujo(*nodo, old(ramas)@),
    decreases *nodo,
{
    match nodo {
        None => {
            proof {
                assert(salida@.map_values(|f: FilaArbol| vista_arbol(f)) =~= salida@.map_values(
                    |f: FilaArbol| vista_arbol(f),
                ) + dibujo(*nodo, ramas@));
            }
        },
        Some(n) => {
            let ghost r0 = ramas@;
            let ghost s0 = salida@.map_values(|f: FilaArbol| vista_arbol(f));
            ramas.push(true);
            imprimir_en(&n.derecho, ramas, salida);
            ramas.pop();
            proof {
                assert(ramas@ =~= r0);
            }
            let ghost s1 = salida@.map_values(|f: FilaArbol| vista_arbol(f));
            let copia = copiar_ramas(ramas);
            let balance = obtener_balance(&**n);
            salida.push(FilaArbol { ramas: copia, vuelo: copiar_vuelo(&n.vuelo), altura: n.altura, balance });
            let ghost s2 = salida@.map_values(|f: FilaArbol| vista_arbol(f));
            proof {
                assert(s2 =~= s1 + seq![
                    (r0, n.vuelo.altitud, n.vuelo.id@, n.altura, balance_de(**n) as i32),
                ]);
            }
            ramas.push(false);
            imprimir_en(&n.izquierdo, ramas, salida);
            ramas.pop();
            proof {
                assert(ramas@ =~= r0);
                assert(salida@.map_values(|f: FilaArbol| vista_arbol(f)) =~= s0 + dibujo(*nodo, r0));
            }
        },
    }
}

/// The lines of the sideways drawing of a tree whose root is drawn with the flag `es_izq`,
/// one per node, higher altitudes first in an ordered tree. Any tree can be drawn, balanced
/// or not, as long as its balance factors fit in an `i32`.
pub fn imprimir_arbol(nodo: &Option<Box<Nodo>>, es_izq: bool) -> (filas: Vec<FilaArbol>)
    requires
        balances_caben(*nodo),
    ensures
        filas@.map_values(|f: FilaArbol| vista_arbol(f)) == dibujo(*nodo, seq![es_izq]),
{
    let mut filas: Vec<FilaArbol> = Vec::new();
    let mut ramas: Vec<bool> = Vec::new();
    ramas.push(es_izq);
    proof {
        assert(ramas@ =~= seq![es_izq]);
        assert(filas@.map_values(|f: FilaArbol| vista_arbol(f)) =~= Seq::<
            (Seq<bool>, u32, Seq<char>, i32, i32),
        >::empty());
    }
    imprimir_en(nodo, &mut ramas, &mut filas);
    proof {
        assert(Seq::<(Seq<bool>, u32, Seq<char>, i32, i32)>::empty() + dibujo(*nodo, seq![es_izq])
            =~= dibujo(*nodo, seq![es_izq]));
    }
    filas
}

} // verus!
