//! Pruebas del modelo del sistema de archivos y del plan completo.

use limpiador::clasificar::{Entrada, Tipo};
use limpiador::guardia::{es_afirmativa, necesita_confirmacion};
use limpiador::manejador::{configurar_manejador, Manejador};
use limpiador::sistema::{ruta_destino, Sistema};

fn entrada(ruta: &str, tipo: Tipo) -> Entrada {
    Entrada { ruta: String::from(ruta), tipo }
}

#[test]
fn destino_de_reubicacion() {
    assert_eq!(ruta_destino("a/b/c.mp4"), "./c.mp4");
    assert_eq!(ruta_destino("suelto.mkv"), "./suelto.mkv");
}

#[test]
fn operaciones_del_modelo() {
    let mut sistema = Sistema::nuevo();
    sistema.poner(String::from("a"), true);
    sistema.poner(String::from("a/x.txt"), false);
    assert!(sistema.contiene("a"));
    assert!(sistema.contiene("a/x.txt"));
    assert!(!sistema.contiene("a/otro"));
    assert_eq!(sistema.estado("a"), Some(true));
    assert_eq!(sistema.estado("a/x.txt"), Some(false));
    assert_eq!(sistema.estado("b"), None);
    assert!(sistema.tiene_descendientes("a"));
    assert!(!sistema.tiene_descendientes("a/x.txt"));
    sistema.quitar("a/x.txt");
    assert!(!sistema.contiene("a/x.txt"));
    assert!(!sistema.tiene_descendientes("a"));
}

#[test]
fn borrado_tolera_anidamiento_en_orden_padre_hijo() {
    let mut sistema = Sistema::nuevo();
    sistema.poner(String::from("a"), true);
    sistema.poner(String::from("a/b"), true);
    sistema.poner(String::from("a/b/file.txt"), false);
    sistema.borrar_archivos(&vec![String::from("a/b/file.txt")]);
    sistema.borrar_directorios(&vec![String::from("a"), String::from("a/b")]);
    assert!(!sistema.contiene("a"));
    assert!(!sistema.contiene("a/b"));
    assert!(!sistema.contiene("a/b/file.txt"));
}

#[test]
fn borrado_tolera_anidamiento_en_orden_hijo_padre() {
    let mut sistema = Sistema::nuevo();
    sistema.poner(String::from("a"), true);
    sistema.poner(String::from("a/b"), true);
    sistema.poner(String::from("a/b/file.txt"), false);
    sistema.borrar_archivos(&vec![String::from("a/b/file.txt")]);
    sistema.borrar_directorios(&vec![String::from("a/b"), String::from("a")]);
    assert!(!sistema.contiene("a"));
    assert!(!sistema.contiene("a/b"));
}

#[test]
fn borrado_no_toca_rutas_parecidas() {
    let mut sistema = Sistema::nuevo();
    sistema.poner(String::from("a"), true);
    sistema.poner(String::from("ab"), true);
    sistema.poner(String::from("ab/x"), false);
    sistema.borrar_directorios(&vec![String::from("a")]);
    assert!(!sistema.contiene("a"));
    assert!(sistema.contiene("ab"));
    assert!(sistema.contiene("ab/x"));
}

#[test]
fn escenario_completo_sin_aviso() {
    let configuracion = configurar_manejador("mp4", 15);
    let aviso = configuracion.aviso;
    let mut manejador = Manejador::new(configuracion);
    manejador.registrar_rutas(vec![
        entrada("raiz/movie.mp4", Tipo::Archivo),
        entrada("raiz/notes.txt", Tipo::Archivo),
        entrada("raiz/sub", Tipo::Directorio),
    ]);
    manejador.cribar_archivos();
    assert!(!necesita_confirmacion(manejador.archivos_borrar.len(), aviso));
    let mut sistema = Sistema::nuevo();
    sistema.poner(String::from("raiz/movie.mp4"), false);
    sistema.poner(String::from("raiz/notes.txt"), false);
    sistema.poner(String::from("raiz/sub"), true);
    sistema.ejecutar_plan(&manejador, true);
    assert!(sistema.contiene("./movie.mp4"));
    assert!(!sistema.contiene("raiz/movie.mp4"));
    assert!(!sistema.contiene("raiz/notes.txt"));
    assert!(!sistema.contiene("raiz/sub"));
}

#[test]
fn escenario_completo_con_negativa() {
    let configuracion = configurar_manejador("mp4,mkv", 15);
    let aviso = configuracion.aviso;
    let mut manejador = Manejador::new(configuracion);
    let mut rutas = Vec::new();
    let mut nombres = Vec::new();
    for k in 0..20 {
        let nombre = format!("raiz/traza{}.log", k);
        nombres.push(nombre.clone());
        rutas.push(Entrada { ruta: nombre, tipo: Tipo::Archivo });
    }
    rutas.push(entrada("raiz/video.mkv", Tipo::Archivo));
    manejador.registrar_rutas(rutas);
    manejador.cribar_archivos();
    assert_eq!(manejador.archivos_borrar.len(), 20);
    assert!(necesita_confirmacion(manejador.archivos_borrar.len(), aviso));
    let continuar = es_afirmativa("n");
    assert!(!continuar);
    let mut sistema = Sistema::nuevo();
    for nombre in &nombres {
        sistema.poner(nombre.clone(), false);
    }
    sistema.poner(String::from("raiz/video.mkv"), false);
    sistema.ejecutar_plan(&manejador, continuar);
    for nombre in &nombres {
        assert!(sistema.contiene(nombre));
    }
    assert!(sistema.contiene("raiz/video.mkv"));
    assert!(!sistema.contiene("./video.mkv"));
}

#[test]
fn plan_completo_con_afirmativa() {
    let configuracion = configurar_manejador("mkv", 2);
    let aviso = configuracion.aviso;
    let mut manejador = Manejador::new(configuracion);
    manejador.registrar_rutas(vec![
        entrada("raiz/uno.log", Tipo::Archivo),
        entrada("raiz/dos.log", Tipo::Archivo),
        entrada("raiz/pelicula.mkv", Tipo::Archivo),
    ]);
    manejador.cribar_archivos();
    assert!(necesita_confirmacion(manejador.archivos_borrar.len(), aviso));
    let continuar = es_afirmativa(" S \n");
    assert!(continuar);
    let mut sistema = Sistema::nuevo();
    sistema.poner(String::from("raiz/uno.log"), false);
    sistema.poner(String::from("raiz/dos.log"), false);
    sistema.poner(String::from("raiz/pelicula.mkv"), false);
    sistema.ejecutar_plan(&manejador, continuar);
    assert!(sistema.contiene("./pelicula.mkv"));
    assert!(!sistema.contiene("raiz/uno.log"));
    assert!(!sistema.contiene("raiz/dos.log"));
    assert!(!sistema.contiene("raiz/pelicula.mkv"));
}
