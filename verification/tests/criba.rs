//! Pruebas de la configuración, la clasificación y la guarda.

use limpiador::clasificar::{extension_str, nombre_archivo_str, Destino, Entrada, Tipo};
use limpiador::guardia::{es_afirmativa, necesita_confirmacion};
use limpiador::manejador::{clasificar_ruta, configurar_manejador, Manejador};
use limpiador::texto::{cadenas_iguales, dividir_str, minusculas_str, quitar_puntos_str, recortar_str};

fn entrada(ruta: &str, tipo: Tipo) -> Entrada {
    Entrada { ruta: String::from(ruta), tipo }
}

#[test]
fn saneado_de_extensiones() {
    let configuracion = configurar_manejador(" .MP4, mkv ,srt", 10);
    assert_eq!(configuracion.aviso, 10);
    assert_eq!(configuracion.extensiones_validas, vec!["mp4", "mkv", "srt"]);
}

#[test]
fn saneado_con_varios_puntos() {
    let configuracion = configurar_manejador("..AVI", 1);
    assert_eq!(configuracion.extensiones_validas, vec!["avi"]);
}

#[test]
fn division_conserva_trozos_vacios() {
    let trozos = dividir_str("mp4,", ',');
    assert_eq!(trozos, vec!["mp4", ""]);
    let solo_uno = dividir_str("", ',');
    assert_eq!(solo_uno, vec![""]);
}

#[test]
fn utilidades_de_texto() {
    assert_eq!(minusculas_str("MoVie.MP4"), "movie.mp4");
    assert_eq!(recortar_str("  hola \n"), "hola");
    assert_eq!(quitar_puntos_str("..mp4"), "mp4");
    assert!(cadenas_iguales("abc", "abc"));
    assert!(!cadenas_iguales("abc", "abd"));
    assert!(!cadenas_iguales("abc", "ab"));
}

#[test]
fn nombre_y_extension() {
    assert_eq!(nombre_archivo_str("a/b/c.mp4"), "c.mp4");
    assert_eq!(nombre_archivo_str("suelto.txt"), "suelto.txt");
    assert_eq!(extension_str("a/b/c.mp4"), Some("mp4"));
    assert_eq!(extension_str("a/archivo.tar.gz"), Some("gz"));
    assert_eq!(extension_str("a/.oculto"), None);
    assert_eq!(extension_str("a/sin_extension"), None);
    assert_eq!(extension_str("a/acaba_en_punto."), Some(""));
}

#[test]
fn extension_sin_mayusculas() {
    let configuracion = configurar_manejador("mp4", 15);
    let destino = clasificar_ruta(
        &entrada("raiz/Movie.MP4", Tipo::Archivo),
        &configuracion.extensiones_validas,
    );
    assert_eq!(destino, Destino::Mover);
}

#[test]
fn extension_sin_punto_inicial() {
    let configuracion = configurar_manejador(".mp4", 15);
    let destino = clasificar_ruta(
        &entrada("raiz/clip.mp4", Tipo::Archivo),
        &configuracion.extensiones_validas,
    );
    assert_eq!(destino, Destino::Mover);
}

#[test]
fn sin_extension_siempre_se_borra() {
    let configuracion = configurar_manejador("mp4,mkv,txt,sin_extension", 15);
    let destino = clasificar_ruta(
        &entrada("raiz/sin_extension", Tipo::Archivo),
        &configuracion.extensiones_validas,
    );
    assert_eq!(destino, Destino::BorrarArchivo);
    let oculto = clasificar_ruta(
        &entrada("raiz/.oculto", Tipo::Archivo),
        &configuracion.extensiones_validas,
    );
    assert_eq!(oculto, Destino::BorrarArchivo);
}

#[test]
fn criba_por_cubos() {
    let configuracion = configurar_manejador("mp4,mkv", 15);
    let mut manejador = Manejador::new(configuracion);
    manejador.registrar_rutas(vec![
        entrada("raiz/a.mp4", Tipo::Archivo),
        entrada("raiz/sub", Tipo::Directorio),
        entrada("raiz/nota.txt", Tipo::Archivo),
        entrada("raiz/b.MKV", Tipo::Archivo),
        entrada("raiz/rota", Tipo::Inaccesible),
        entrada("raiz/sin_ext", Tipo::Archivo),
    ]);
    manejador.cribar_archivos();
    assert_eq!(manejador.archivos_mover, vec!["raiz/a.mp4", "raiz/b.MKV"]);
    assert_eq!(manejador.archivos_borrar, vec!["raiz/nota.txt", "raiz/sin_ext"]);
    assert_eq!(manejador.directorios_borrar, vec!["raiz/sub"]);
}

#[test]
fn criba_sin_rutas() {
    let configuracion = configurar_manejador("mp4", 15);
    let mut manejador = Manejador::new(configuracion);
    manejador.cribar_archivos();
    assert!(manejador.archivos_mover.is_empty());
    assert!(manejador.archivos_borrar.is_empty());
    assert!(manejador.directorios_borrar.is_empty());
}

#[test]
fn umbral_en_el_limite() {
    assert!(necesita_confirmacion(15, 15));
    assert!(!necesita_confirmacion(14, 15));
    assert!(necesita_confirmacion(16, 15));
    assert!(necesita_confirmacion(0, 0));
}

#[test]
fn respuestas_afirmativas() {
    assert!(es_afirmativa("s"));
    assert!(es_afirmativa("S"));
    assert!(es_afirmativa("s\n"));
    assert!(es_afirmativa("  S \r\n"));
}

#[test]
fn respuestas_negativas() {
    assert!(!es_afirmativa("n"));
    assert!(!es_afirmativa("no"));
    assert!(!es_afirmativa("si"));
    assert!(!es_afirmativa(""));
    assert!(!es_afirmativa("\n"));
    assert!(!es_afirmativa("ss"));
}
