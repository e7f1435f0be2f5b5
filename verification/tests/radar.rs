use lib::consultas::{buscar_vuelo, vuelos_en_rango};
use lib::eliminacion::{eliminar_vuelo, obtener_maximo};
use lib::insercion::insertar;
use lib::modelo::{actualizar_altura, obtener_altura, obtener_balance};
use lib::recorridos::{imprimir_arbol, inorder};
use lib::rotaciones::{rotar_derecha, rotar_izquierda};
use lib::{Nodo, Vuelo};

fn vuelo(id: &str, altitud: u32) -> Vuelo {
    Vuelo { id: id.to_string(), altitud }
}

fn insertar_en(radar: &mut Option<Box<Nodo>>, id: &str, altitud: u32) {
    *radar = Some(insertar(radar.take(), vuelo(id, altitud)));
}

fn hoja(id: &str, altitud: u32) -> Option<Box<Nodo>> {
    Some(Box::new(Nodo::nuevo(vuelo(id, altitud))))
}

fn raiz(radar: &Option<Box<Nodo>>) -> &Nodo {
    radar.as_ref().unwrap()
}

fn clave(t: &Option<Box<Nodo>>) -> Option<u32> {
    t.as_ref().map(|n| n.vuelo.altitud)
}

fn claves_en_orden(radar: &Option<Box<Nodo>>) -> Vec<u32> {
    inorder(radar).iter().map(|f| f.vuelo.altitud).collect()
}

/// Checks order, stored heights and balance at every node; returns the height.
fn comprobar_avl(t: &Option<Box<Nodo>>, min: Option<u32>, max: Option<u32>) -> i32 {
    match t {
        None => 0,
        Some(n) => {
            if let Some(m) = min {
                assert!(n.vuelo.altitud > m);
            }
            if let Some(m) = max {
                assert!(n.vuelo.altitud < m);
            }
            let hi = comprobar_avl(&n.izquierdo, min, Some(n.vuelo.altitud));
            let hd = comprobar_avl(&n.derecho, Some(n.vuelo.altitud), max);
            assert!((hi - hd).abs() <= 1);
            assert_eq!(n.altura, 1 + hi.max(hd));
            n.altura
        }
    }
}

fn radar_de_la_prueba() -> Option<Box<Nodo>> {
    let mut radar = None;
    insertar_en(&mut radar, "AV123", 5000);
    insertar_en(&mut radar, "UA456", 3000);
    insertar_en(&mut radar, "IB101", 2000);
    insertar_en(&mut radar, "AF999", 4000);
    insertar_en(&mut radar, "TA222", 3500);
    insertar_en(&mut radar, "AM777", 6000);
    radar
}

#[test]
fn prueba_de_escritorio_paso_a_paso() {
    let mut radar: Option<Box<Nodo>> = None;

    insertar_en(&mut radar, "AV123", 5000);
    assert_eq!(raiz(&radar).vuelo.altitud, 5000);
    assert_eq!(obtener_altura(&radar), 1);

    insertar_en(&mut radar, "UA456", 3000);
    assert_eq!(raiz(&radar).vuelo.altitud, 5000);
    assert_eq!(obtener_balance(raiz(&radar)), 1);

    // Left-left: a right rotation at 5000.
    insertar_en(&mut radar, "IB101", 2000);
    assert_eq!(raiz(&radar).vuelo.altitud, 3000);
    assert_eq!(clave(&raiz(&radar).izquierdo), Some(2000));
    assert_eq!(clave(&raiz(&radar).derecho), Some(5000));
    assert_eq!(obtener_balance(raiz(&radar)), 0);

    insertar_en(&mut radar, "AF999", 4000);
    assert_eq!(raiz(&radar).vuelo.altitud, 3000);
    assert_eq!(obtener_balance(raiz(&radar)), -1);

    // Left-left in the subtree of 5000.
    insertar_en(&mut radar, "TA222", 3500);
    assert_eq!(raiz(&radar).vuelo.altitud, 3000);
    let der = raiz(&radar).derecho.as_ref().unwrap();
    assert_eq!(der.vuelo.altitud, 4000);
    assert_eq!(clave(&der.izquierdo), Some(3500));
    assert_eq!(clave(&der.derecho), Some(5000));
    assert_eq!(obtener_balance(raiz(&radar)), -1);

    // Right-right: a left rotation at 3000.
    insertar_en(&mut radar, "AM777", 6000);
    let r = raiz(&radar);
    assert_eq!(r.vuelo.altitud, 4000);
    assert_eq!(r.vuelo.id, "AF999");
    let izq = r.izquierdo.as_ref().unwrap();
    let der = r.derecho.as_ref().unwrap();
    assert_eq!(izq.vuelo.altitud, 3000);
    assert_eq!(clave(&izq.izquierdo), Some(2000));
    assert_eq!(clave(&izq.derecho), Some(3500));
    assert_eq!(der.vuelo.altitud, 5000);
    assert_eq!(clave(&der.izquierdo), None);
    assert_eq!(clave(&der.derecho), Some(6000));
    assert_eq!(obtener_balance(r), 0);
    assert_eq!(obtener_balance(izq), 0);
    assert_eq!(obtener_balance(der), -1);
    assert_eq!(r.altura, 3);
    comprobar_avl(&radar, None, None);
}

#[test]
fn recorrido_inorden_ordenado() {
    let radar = radar_de_la_prueba();
    let filas = inorder(&radar);
    let vistas: Vec<(u32, String, i32)> =
        filas.iter().map(|f| (f.vuelo.altitud, f.vuelo.id.clone(), f.altura)).collect();
    assert_eq!(
        vistas,
        vec![
            (2000, "IB101".to_string(), 1),
            (3000, "UA456".to_string(), 2),
            (3500, "TA222".to_string(), 1),
            (4000, "AF999".to_string(), 3),
            (5000, "AV123".to_string(), 2),
            (6000, "AM777".to_string(), 1),
        ]
    );
    assert!(inorder(&None).is_empty());
}

#[test]
fn buscar_vuelos() {
    let radar = radar_de_la_prueba();
    let v = buscar_vuelo(&radar, 3500).unwrap();
    assert_eq!(v.id, "TA222");
    assert_eq!(v.altitud, 3500);
    assert!(buscar_vuelo(&radar, 9999).is_none());
    assert_eq!(buscar_vuelo(&radar, 2000).unwrap().id, "IB101");
    assert_eq!(buscar_vuelo(&radar, 6000).unwrap().id, "AM777");
    assert!(buscar_vuelo(&radar, 3999).is_none());
    assert!(buscar_vuelo(&None, 3000).is_none());
}

#[test]
fn alerta_de_proximidad() {
    let radar = radar_de_la_prueba();
    assert_eq!(vuelos_en_rango(&radar, 3000, 5000), 4);
    assert_eq!(vuelos_en_rango(&radar, 2000, 3500), 3);
    assert_eq!(vuelos_en_rango(&radar, 0, 99999), 6);
    assert_eq!(vuelos_en_rango(&radar, 0, u32::MAX), 6);
    assert_eq!(vuelos_en_rango(&radar, 4000, 4000), 1);
    assert_eq!(vuelos_en_rango(&radar, 4001, 4999), 0);
    assert_eq!(vuelos_en_rango(&radar, 5000, 3000), 0);
    assert_eq!(vuelos_en_rango(&radar, 7000, 9000), 0);
    assert_eq!(vuelos_en_rango(&None, 0, 9000), 0);
}

#[test]
fn descenso_y_aterrizaje() {
    let mut radar = radar_de_la_prueba();

    // Two children: the predecessor 3500 takes the place of 4000.
    radar = eliminar_vuelo(radar.take(), 4000);
    let r = raiz(&radar);
    assert_eq!(r.vuelo.altitud, 3500);
    assert_eq!(r.vuelo.id, "TA222");
    let izq = r.izquierdo.as_ref().unwrap();
    assert_eq!(izq.vuelo.altitud, 3000);
    assert_eq!(clave(&izq.izquierdo), Some(2000));
    assert_eq!(clave(&izq.derecho), None);
    let der = r.derecho.as_ref().unwrap();
    assert_eq!(der.vuelo.altitud, 5000);
    assert_eq!(clave(&der.derecho), Some(6000));
    comprobar_avl(&radar, None, None);

    // A leaf.
    radar = eliminar_vuelo(radar.take(), 6000);
    assert_eq!(claves_en_orden(&radar), vec![2000, 3000, 3500, 5000]);
    comprobar_avl(&radar, None, None);

    // 5000 is a leaf by now; removing it unbalances 3500, which rotates right.
    radar = eliminar_vuelo(radar.take(), 5000);
    assert_eq!(claves_en_orden(&radar), vec![2000, 3000, 3500]);
    let r = raiz(&radar);
    assert_eq!(r.vuelo.altitud, 3000);
    assert_eq!(clave(&r.izquierdo), Some(2000));
    assert_eq!(clave(&r.derecho), Some(3500));
    comprobar_avl(&radar, None, None);

    assert_eq!(vuelos_en_rango(&radar, 0, 99999), 3);
    assert!(buscar_vuelo(&radar, 4000).is_none());
}

#[test]
fn eliminar_altitud_ausente_no_cambia_nada() {
    let radar = radar_de_la_prueba();
    let radar = eliminar_vuelo(radar, 4242);
    assert_eq!(claves_en_orden(&radar), vec![2000, 3000, 3500, 4000, 5000, 6000]);
    assert!(eliminar_vuelo(None, 10).is_none());
}

#[test]
fn eliminar_nodo_con_un_solo_hijo() {
    let mut radar = None;
    insertar_en(&mut radar, "A", 10);
    insertar_en(&mut radar, "B", 20);
    radar = eliminar_vuelo(radar.take(), 10);
    assert_eq!(raiz(&radar).vuelo.altitud, 20);
    assert_eq!(obtener_altura(&radar), 1);
    radar = eliminar_vuelo(radar.take(), 20);
    assert!(radar.is_none());
}

#[test]
fn altitud_duplicada_no_se_inserta() {
    let mut radar = radar_de_la_prueba();
    insertar_en(&mut radar, "XX000", 3500);
    assert_eq!(buscar_vuelo(&radar, 3500).unwrap().id, "TA222");
    assert_eq!(claves_en_orden(&radar).len(), 6);
    assert_eq!(raiz(&radar).vuelo.altitud, 4000);
}

#[test]
fn rotacion_doble_izquierda_derecha_al_insertar() {
    let mut radar = None;
    insertar_en(&mut radar, "A", 30);
    insertar_en(&mut radar, "B", 10);
    insertar_en(&mut radar, "C", 20);
    let r = raiz(&radar);
    assert_eq!(r.vuelo.altitud, 20);
    assert_eq!(clave(&r.izquierdo), Some(10));
    assert_eq!(clave(&r.derecho), Some(30));
    assert_eq!(r.altura, 2);
}

#[test]
fn rotacion_doble_derecha_izquierda_al_insertar() {
    let mut radar = None;
    insertar_en(&mut radar, "A", 10);
    insertar_en(&mut radar, "B", 30);
    insertar_en(&mut radar, "C", 20);
    let r = raiz(&radar);
    assert_eq!(r.vuelo.altitud, 20);
    assert_eq!(clave(&r.izquierdo), Some(10));
    assert_eq!(clave(&r.derecho), Some(30));
}

#[test]
fn rotaciones_dobles_al_eliminar() {
    // Removing 40 leaves 30 heavy on the left, with its left child heavy on the right.
    let mut radar = None;
    for (id, a) in [("A", 30), ("B", 10), ("C", 40), ("D", 20)] {
        insertar_en(&mut radar, id, a);
    }
    radar = eliminar_vuelo(radar.take(), 40);
    let r = raiz(&radar);
    assert_eq!(r.vuelo.altitud, 20);
    assert_eq!(clave(&r.izquierdo), Some(10));
    assert_eq!(clave(&r.derecho), Some(30));

    // Removing 10 leaves 20 heavy on the right, with its right child heavy on the left.
    let mut radar = None;
    for (id, a) in [("A", 20), ("B", 10), ("C", 40), ("D", 30)] {
        insertar_en(&mut radar, id, a);
    }
    radar = eliminar_vuelo(radar.take(), 10);
    let r = raiz(&radar);
    assert_eq!(r.vuelo.altitud, 30);
    assert_eq!(clave(&r.izquierdo), Some(20));
    assert_eq!(clave(&r.derecho), Some(40));
}

#[test]
fn muchas_operaciones_mantienen_el_avl() {
    let mut radar = None;
    let mut x: u32 = 7;
    for i in 0..300u32 {
        x = (x.wrapping_mul(1103515245).wrapping_add(12345)) % 2000;
        insertar_en(&mut radar, &format!("V{}", i), x);
        comprobar_avl(&radar, None, None);
    }
    let claves = claves_en_orden(&radar);
    for w in claves.windows(2) {
        assert!(w[0] < w[1]);
    }
    let n = claves.len() as u32;
    // pow2(h / 2) <= n + 1.
    let h = obtener_altura(&radar) as u32;
    assert!(1u64 << (h / 2) <= (n as u64) + 1);
    for (i, k) in claves.iter().enumerate() {
        if i % 2 == 0 {
            radar = eliminar_vuelo(radar.take(), *k);
            comprobar_avl(&radar, None, None);
            assert!(buscar_vuelo(&radar, *k).is_none());
        }
    }
    assert_eq!(vuelos_en_rango(&radar, 0, u32::MAX), claves.len() / 2);
}

#[test]
fn insertar_y_eliminar_restituye_el_contenido() {
    let mut radar = radar_de_la_prueba();
    insertar_en(&mut radar, "NEW1", 4500);
    assert_eq!(vuelos_en_rango(&radar, 4000, 5000), 3);
    assert_eq!(buscar_vuelo(&radar, 4500).unwrap().id, "NEW1");
    radar = eliminar_vuelo(radar.take(), 4500);
    assert_eq!(claves_en_orden(&radar), vec![2000, 3000, 3500, 4000, 5000, 6000]);
    assert_eq!(vuelos_en_rango(&radar, 4000, 5000), 2);
}

#[test]
fn maximo_de_un_subarbol() {
    let radar = radar_de_la_prueba();
    let m = obtener_maximo(radar.as_ref().unwrap());
    assert_eq!(m.altitud, 6000);
    assert_eq!(m.id, "AM777");
    let izq = &raiz(&radar).izquierdo;
    let m = obtener_maximo(izq.as_ref().unwrap());
    assert_eq!(m.altitud, 3500);
    assert_eq!(m.id, "TA222");
}

#[test]
fn alturas_y_balance() {
    assert_eq!(obtener_altura(&None), 0);
    let mut n = Nodo::nuevo(vuelo("A", 10));
    assert_eq!(n.altura, 1);
    assert!(n.izquierdo.is_none() && n.derecho.is_none());
    n.izquierdo = hoja("B", 5);
    n.izquierdo.as_mut().unwrap().altura = 4;
    n.derecho = hoja("C", 15);
    n.derecho.as_mut().unwrap().altura = 2;
    assert_eq!(obtener_balance(&n), 2);
    actualizar_altura(&mut n);
    assert_eq!(n.altura, 5);
    n.izquierdo = None;
    actualizar_altura(&mut n);
    assert_eq!(n.altura, 3);
    assert_eq!(obtener_balance(&n), -2);
}

#[test]
fn rotaciones_simples() {
    // y = 30 with left x = 20 (left 10, right 25), right 40.
    let mut x = Nodo::nuevo(vuelo("X", 20));
    x.izquierdo = hoja("A", 10);
    x.derecho = hoja("B", 25);
    x.altura = 2;
    let mut y = Nodo::nuevo(vuelo("Y", 30));
    y.izquierdo = Some(Box::new(x));
    y.derecho = hoja("C", 40);
    y.altura = 3;
    let r = rotar_derecha(Box::new(y));
    assert_eq!(r.vuelo.altitud, 20);
    assert_eq!(clave(&r.izquierdo), Some(10));
    let ny = r.derecho.as_ref().unwrap();
    assert_eq!(ny.vuelo.altitud, 30);
    assert_eq!(clave(&ny.izquierdo), Some(25));
    assert_eq!(clave(&ny.derecho), Some(40));
    assert_eq!(ny.altura, 2);
    assert_eq!(r.altura, 3);

    let back = rotar_izquierda(r);
    assert_eq!(back.vuelo.altitud, 30);
    let nx = back.izquierdo.as_ref().unwrap();
    assert_eq!(nx.vuelo.altitud, 20);
    assert_eq!(clave(&nx.izquierdo), Some(10));
    assert_eq!(clave(&nx.derecho), Some(25));
    assert_eq!(clave(&back.derecho), Some(40));
    assert_eq!(nx.altura, 2);
    assert_eq!(back.altura, 3);
}

#[test]
fn dibujo_del_arbol() {
    let radar = radar_de_la_prueba();
    let filas = imprimir_arbol(&radar, false);
    let vistas: Vec<(Vec<bool>, u32, i32, i32)> =
        filas.iter().map(|f| (f.ramas.clone(), f.vuelo.altitud, f.altura, f.balance)).collect();
    assert_eq!(
        vistas,
        vec![
            (vec![false, true, true], 6000, 1, 0),
            (vec![false, true], 5000, 2, -1),
            (vec![false], 4000, 3, 0),
            (vec![false, false, true], 3500, 1, 0),
            (vec![false, false], 3000, 2, 0),
            (vec![false, false, false], 2000, 1, 0),
        ]
    );
    assert!(imprimir_arbol(&None, true).is_empty());
}

/// A chain 1 -> 2 -> 3 to the right, with its stored heights correct but unbalanced.
fn cadena() -> Option<Box<Nodo>> {
    let mut n3 = Nodo::nuevo(vuelo("C", 3));
    n3.altura = 1;
    let mut n2 = Nodo::nuevo(vuelo("B", 2));
    n2.derecho = Some(Box::new(n3));
    n2.altura = 2;
    let mut n1 = Nodo::nuevo(vuelo("A", 1));
    n1.derecho = Some(Box::new(n2));
    n1.altura = 3;
    Some(Box::new(n1))
}

#[test]
fn dibujo_de_un_arbol_desequilibrado() {
    let t = cadena();
    let filas = imprimir_arbol(&t, false);
    let vistas: Vec<(Vec<bool>, u32, i32, i32)> =
        filas.iter().map(|f| (f.ramas.clone(), f.vuelo.altitud, f.altura, f.balance)).collect();
    assert_eq!(
        vistas,
        vec![
            (vec![false, true, true], 3, 1, 0),
            (vec![false, true], 2, 2, -1),
            (vec![false], 1, 3, -2),
        ]
    );
}

/// A tree out of order: 10 with 50 on its left and 5 on its right.
fn desordenado() -> Option<Box<Nodo>> {
    let mut n = Nodo::nuevo(vuelo("M", 10));
    n.izquierdo = hoja("L", 50);
    n.derecho = hoja("R", 5);
    n.altura = 2;
    Some(Box::new(n))
}

#[test]
fn consultas_en_un_arbol_desordenado() {
    let t = desordenado();
    // The search goes left only for lower altitudes, so it misses 50 and 5.
    assert!(buscar_vuelo(&t, 50).is_none());
    assert!(buscar_vuelo(&t, 5).is_none());
    assert_eq!(buscar_vuelo(&t, 10).unwrap().id, "M");
    // The pruned count: 10 is in [0, 20], both sides are visited.
    assert_eq!(vuelos_en_rango(&t, 0, 20), 2);
    // 10 is below [11, 60]: only the right side (5) is visited.
    assert_eq!(vuelos_en_rango(&t, 11, 60), 0);
    // An empty band counts nothing.
    assert_eq!(vuelos_en_rango(&t, 60, 0), 0);
    // The rightmost flight, whatever the order.
    let m = obtener_maximo(t.as_ref().unwrap());
    assert_eq!(m.altitud, 5);
    assert_eq!(m.id, "R");
}

fn radar_de(claves: &[u32]) -> Option<Box<Nodo>> {
    let mut radar = None;
    for a in claves {
        insertar_en(&mut radar, &format!("F{}", a), *a);
    }
    radar
}

#[test]
fn eliminar_con_rotacion_simple_derecha() {
    let radar = radar_de(&[2000, 1000, 3000, 500, 1500]);
    let radar = eliminar_vuelo(radar, 3000);
    let r = raiz(&radar);
    assert_eq!(r.vuelo.altitud, 1000);
    assert_eq!(r.altura, 3);
    assert_eq!(clave(&r.izquierdo), Some(500));
    let d = r.derecho.as_ref().unwrap();
    assert_eq!(d.vuelo.altitud, 2000);
    assert_eq!(d.altura, 2);
    assert_eq!(clave(&d.izquierdo), Some(1500));
    assert_eq!(clave(&d.derecho), None);
}

#[test]
fn eliminar_con_rotacion_simple_izquierda() {
    let radar = radar_de(&[1000, 500, 2000, 1500, 2500]);
    let radar = eliminar_vuelo(radar, 500);
    let r = raiz(&radar);
    assert_eq!(r.vuelo.altitud, 2000);
    assert_eq!(r.altura, 3);
    assert_eq!(clave(&r.derecho), Some(2500));
    let i = r.izquierdo.as_ref().unwrap();
    assert_eq!(i.vuelo.altitud, 1000);
    assert_eq!(i.altura, 2);
    assert_eq!(clave(&i.izquierdo), None);
    assert_eq!(clave(&i.derecho), Some(1500));
}

#[test]
fn rotar_y_deshacer() {
    let radar = radar_de(&[20, 10, 30, 5, 15]);
    let r = radar.unwrap();
    let rotado = rotar_derecha(r);
    assert_eq!(rotado.vuelo.altitud, 10);
    let vuelta = rotar_izquierda(rotado);
    assert_eq!(vuelta.vuelo.altitud, 20);
    assert_eq!(vuelta.altura, 3);
    let i = vuelta.izquierdo.as_ref().unwrap();
    assert_eq!((i.vuelo.altitud, i.altura), (10, 2));
    assert_eq!(clave(&i.izquierdo), Some(5));
    assert_eq!(clave(&i.derecho), Some(15));
    assert_eq!(clave(&vuelta.derecho), Some(30));
}
