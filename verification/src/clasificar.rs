//! Clasificación de las rutas encontradas: cada entrada del recorrido va a
//! parar a uno de tres cubos (mover, borrar archivo, borrar directorio) o se
//! omite si el recorrido no pudo leerla. El criterio es el tipo de la
//! entrada y, para los archivos, su extensión frente a la lista permitida.

use vstd::prelude::*;
use crate::texto::{minusculas, ultima_posicion, ultima_posicion_str, lema_ultima_posicion};

verus! {

/// Tipo en disco de una entrada del recorrido.
#[derive(Clone, Copy, PartialEq, Eq, Structural, Debug)]
pub enum Tipo {
    Archivo,
    Directorio,
    /// El recorrido no pudo leer la entrada; se informa y se omite.
    Inaccesible,
}

/// Una ruta encontrada por el recorrido, con su tipo en disco.
#[derive(Debug)]
pub struct Entrada {
    pub ruta: String,
    pub tipo: Tipo,
}

/// Cubo al que va a parar una entrada.
#[derive(Clone, Copy, PartialEq, Eq, Structural, Debug)]
pub enum Destino {
    Mover,
    BorrarArchivo,
    BorrarDirectorio,
    Omitir,
}

/// Nombre de archivo de una ruta: lo que sigue a la última barra, o la ruta
/// entera si no hay barra.
pub open spec fn nombre_archivo(r: Seq<char>) -> Seq<char> {
    match ultima_posicion(r, '/') {
        None => r,
        Some(i) => r.skip(i + 1),
    }
}

/// Extensión de una ruta: lo que sigue al último punto del nombre de
/// archivo. No hay extensión si el nombre no tiene punto o si su único
/// punto es el inicial (archivo oculto).
pub open spec fn extension_de(r: Seq<char>) -> Option<Seq<char>> {
    let nombre = nombre_archivo(r);
    match ultima_posicion(nombre, '.') {
        None => None,
        Some(j) => if j == 0 {
            None
        } else {
            Some(nombre.skip(j + 1))
        },
    }
}

/// La extensión figura en la lista permitida.
pub open spec fn ext_permitida(ext: Seq<char>, exts: Seq<Seq<char>>) -> bool {
    exists|k: int| 0 <= k < exts.len() && exts[k] == ext
}

/// Cubo de una entrada: los directorios se borran como unidades, las
/// entradas ilegibles se omiten, y un archivo se conserva exactamente
/// cuando su extensión, pasada a minúsculas, figura en la lista permitida.
pub open spec fn clasificar_entrada(e: Entrada, exts: Seq<Seq<char>>) -> Destino {
    match e.tipo {
        Tipo::Directorio => Destino::BorrarDirectorio,
        Tipo::Inaccesible => Destino::Omitir,
        Tipo::Archivo => match extension_de(e.ruta@) {
            None => Destino::BorrarArchivo,
            Some(x) => if ext_permitida(minusculas(x), exts) {
                Destino::Mover
            } else {
                Destino::BorrarArchivo
            },
        },
    }
}

/// Nombre de archivo de una ruta.
pub fn nombre_archivo_str(r: &str) -> (nombre: &str)
    ensures
        nombre@ == nombre_archivo(r@),
{
    let n = r.unicode_len();
    match ultima_posicion_str(r, '/') {
        None => r,
        Some(i) => {
            proof {
                lema_ultima_posicion(r@, '/');
            }
            let nombre = r.substring_char(i + 1, n);
            proof {
                assert(nombre@ =~= r@.skip(i + 1));
            }
            nombre
        },
    }
}

/// Extensión de una ruta, si la hay.
pub fn extension_str(r: &str) -> (ext: Option<&str>)
    ensures
        match ext {
            Some(x) => extension_de(r@) == Some(x@),
            None => extension_de(r@) is None,
        },
{
    let nombre = nombre_archivo_str(r);
    let n = nombre.unicode_len();
    match ultima_posicion_str(nombre, '.') {
        None => None,
        Some(j) => {
            if j == 0 {
                None
            } else {
                proof {
                    lema_ultima_posicion(nombre@, '.');
                }
                let ext = nombre.substring_char(j + 1, n);
                proof {
                    assert(ext@ =~= nombre@.skip(j + 1));
                }
                Some(ext)
            }
        },
    }
}

/// La cadena figura en la lista.
pub fn contiene_cadena(lista: &Vec<String>, objetivo: &String) -> (r: bool)
    ensures
        r == ext_permitida(objetivo@, crate::texto::vistas(lista@)),
{
    let mut k: usize = 0;
    while k < lista.len()
        invariant
            0 <= k <= lista@.len(),
            forall|m: int| 0 <= m < k ==> lista@[m]@ != objetivo@,
        decreases lista@.len() - k,
    {
        if lista[k].eq(objetivo) {
            proof {
                assert(crate::texto::vistas(lista@)[k as int] == objetivo@);
            }
            return true;
        }
        k = k + 1;
    }
    false
}

/// Un archivo sin extensión va siempre al cubo de borrado, sea cual sea la
/// lista permitida.
pub proof fn lema_sin_extension_se_borra(e: Entrada, exts: Seq<Seq<char>>)
    requires
        e.tipo == Tipo::Archivo,
        extension_de(e.ruta@) is None,
    ensures
        clasificar_entrada(e, exts) == Destino::BorrarArchivo,
{
}

/// La pertenencia a la lista permitida no distingue mayúsculas: dos
/// extensiones con las mismas minúsculas corren la misma suerte.
pub proof fn lema_extension_sin_mayusculas(a: Seq<char>, b: Seq<char>, exts: Seq<Seq<char>>)
    requires
        minusculas(a) == minusculas(b),
    ensures
        ext_permitida(minusculas(a), exts) == ext_permitida(minusculas(b), exts),
{
}

} // verus!
