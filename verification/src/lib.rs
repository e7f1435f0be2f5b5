//! An altitude-keyed AVL tree of flights for air-traffic control.

pub mod modelo;
pub mod rotaciones;
pub mod insercion;
pub mod eliminacion;
pub mod consultas;
pub mod recorridos;
pub mod leyes;

pub use modelo::{Nodo, Vuelo};
