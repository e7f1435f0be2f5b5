//! The flight and node types, the mathematical model of a tree, and the
//! height bookkeeping that the balancing operations rely on.

use vstd::prelude::*;

verus! {

/// A flight on the radar: its code and its altitude in feet, which is the key of the tree.
#[derive(Debug, Clone)]
pub struct Vuelo {
    pub id: String,
    pub altitud: u32,
}

/// A node of the AVL tree: a flight, the subtrees of lower and higher altitudes, and the
/// stored height of the subtree rooted here.
pub struct Nodo {
    pub vuelo: Vuelo,
    pub izquierdo: Option<Box<Nodo>>,
    pub derecho: Option<Box<Nodo>>,
    pub altura: i32,
}

/// What a tree holds: each altitude mapped to the code of the flight at that altitude.
pub open spec fn contenido(t: Option<Box<Nodo>>) -> Map<u32, Seq<char>>
    decreases t,
{
    match t {
        None => Map::empty(),
        Some(n) => contenido(n.izquierdo).union_prefer_right(contenido(n.derecho)).insert(
            n.vuelo.altitud,
            n.vuelo.id@,
        ),
    }
}

pub open spec fn maximo(a: int, b: int) -> int {
    if a >= b {
        a
    } else {
        b
    }
}

/// The number of nodes of a tree.
pub open spec fn tamano(t: Option<Box<Nodo>>) -> nat
    decreases t,
{
    match t {
        None => 0,
        Some(n) => 1 + tamano(n.izquierdo) + tamano(n.derecho),
    }
}

/// The true height of a tree: 0 for the empty tree.
pub open spec fn altura(t: Option<Box<Nodo>>) -> nat
    decreases t,
{
    match t {
        None => 0,
        Some(n) => (1 + maximo(altura(n.izquierdo) as int, altura(n.derecho) as int)) as nat,
    }
}

/// The height stored at the root of a tree, 0 for the empty tree.
pub open spec fn campo_altura(t: Option<Box<Nodo>>) -> int {
    match t {
        None => 0,
        Some(n) => n.altura as int,
    }
}

/// The stored balance factor of a node: left height minus right height.
pub open spec fn balance_de(n: Nodo) -> int {
    campo_altura(n.izquierdo) - campo_altura(n.derecho)
}

/// Binary-search-tree order: lower altitudes to the left, higher to the right, at every node.
pub open spec fn es_abb(t: Option<Box<Nodo>>) -> bool
    decreases t,
{
    match t {
        None => true,
        Some(n) => {
            &&& es_abb(n.izquierdo)
            &&& es_abb(n.derecho)
            &&& forall|k: u32| #[trigger]
                contenido(n.izquierdo).contains_key(k) ==> k < n.vuelo.altitud
            &&& forall|k: u32| #[trigger]
                contenido(n.derecho).contains_key(k) ==> n.vuelo.altitud < k
        },
    }
}

/// AVL shape: every stored height is the true height, and the heights of the two
/// subtrees of every node differ by at most one.
pub open spec fn es_avl(t: Option<Box<Nodo>>) -> bool
    decreases t,
{
    match t {
        None => true,
        Some(n) => {
            &&& es_avl(n.izquierdo)
            &&& es_avl(n.derecho)
            &&& n.altura as int == altura(t) as int
            &&& altura(n.izquierdo) <= altura(n.derecho) + 1
            &&& altura(n.derecho) <= altura(n.izquierdo) + 1
        },
    }
}

/// A well-formed radar: ordered by altitude and AVL-balanced.
pub open spec fn bien_formado(t: Option<Box<Nodo>>) -> bool {
    es_abb(t) && es_avl(t)
}

/// The node with its stored height recomputed from the heights stored in its children.
pub open spec fn con_altura(n: Nodo) -> Nodo {
    Nodo {
        vuelo: n.vuelo,
        izquierdo: n.izquierdo,
        derecho: n.derecho,
        altura: (1 + maximo(campo_altura(n.izquierdo), campo_altura(n.derecho))) as i32,
    }
}

/// In an AVL tree the stored height at the root is the true height.
pub proof fn lema_campo_es_altura(t: Option<Box<Nodo>>)
    requires
        es_avl(t),
    ensures
        campo_altura(t) == altura(t),
        0 <= altura(t) <= i32::MAX,
{
}

/// Every node of an AVL tree has a balance factor between -1 and 1.
pub proof fn lema_balance_acotado(t: Option<Box<Nodo>>)
    requires
        es_avl(t),
        t is Some,
    ensures
        -1 <= balance_de(*t.unwrap()) <= 1,
{
    lema_campo_es_altura(t.unwrap().izquierdo);
    lema_campo_es_altura(t.unwrap().derecho);
}

impl Nodo {
    /// A leaf of height 1 holding the given flight.
    pub fn nuevo(vuelo: Vuelo) -> (n: Self)
        ensures
            n.vuelo == vuelo,
            n.izquierdo is None,
            n.derecho is None,
            n.altura == 1,
            bien_formado(Some(Box::new(n))),
            altura(Some(Box::new(n))) == 1,
            contenido(Some(Box::new(n))) == map![vuelo.altitud => vuelo.id@],
    {
        let n = Nodo { vuelo, izquierdo: None, derecho: None, altura: 1 };
        proof {
            let t = Some(Box::new(n));
            assert(contenido(None) == Map::<u32, Seq<char>>::empty());
            assert(altura(None) == 0);
            assert(es_abb(None) && es_avl(None));
            assert(contenido(t) =~= map![n.vuelo.altitud => n.vuelo.id@]);
        }
        n
    }
}

/// The height stored at the root of a subtree, 0 for an empty one.
pub fn obtener_altura(nodo: &Option<Box<Nodo>>) -> (h: i32)
    ensures
        h == campo_altura(*nodo),
{
    match nodo {
        None => 0,
        Some(n) => n.altura,
    }
}

/// Recomputes the stored height of a node from the heights stored in its children.
pub fn actualizar_altura(nodo: &mut Nodo)
    requires
        maximo(campo_altura(old(nodo).izquierdo), campo_altura(old(nodo).derecho)) < i32::MAX,
    ensures
        *final(nodo) == con_altura(*old(nodo)),
{
    let hi = obtener_altura(&nodo.izquierdo);
    let hd = obtener_altura(&nodo.derecho);
    let m = if hi >= hd {
        hi
    } else {
        hd
    };
    nodo.altura = 1 + m;
}

/// The balance factor of a node: the stored height of its left subtree minus that of its
/// right subtree.
pub fn obtener_balance(nodo: &Nodo) -> (b: i32)
    requires
        i32::MIN <= balance_de(*nodo) <= i32::MAX,
    ensures
        b == balance_de(*nodo),
{
    obtener_altura(&nodo.izquierdo) - obtener_altura(&nodo.derecho)
}

} // verus!
