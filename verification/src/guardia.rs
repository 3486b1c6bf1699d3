//! La guarda de confirmación: decide si hace falta preguntar antes de
//! borrar y si la respuesta del usuario autoriza a seguir. La pregunta
//! misma (consola) queda fuera de la biblioteca.

use vstd::prelude::*;
use crate::texto::{minusculas, minusculas_str, recortar, recortar_str};

verus! {

/// Hace falta confirmación exactamente cuando el número de archivos por
/// borrar alcanza el umbral de aviso: con el umbral justo se pregunta, con
/// uno menos no.
pub fn necesita_confirmacion(archivos_por_borrar: usize, aviso: u32) -> (r: bool)
    ensures
        r == (archivos_por_borrar >= aviso as usize),
{
    archivos_por_borrar >= aviso as usize
}

/// La respuesta afirma: tras pasar a minúsculas y recortar blancos queda
/// exactamente la letra ese. Cualquier otra respuesta es una negativa.
pub open spec fn afirmativa(respuesta: Seq<char>) -> bool {
    recortar(minusculas(respuesta)) == seq!['s']
}

/// Decide si la respuesta del usuario autoriza a seguir.
pub fn es_afirmativa(respuesta: &str) -> (r: bool)
    ensures
        r == afirmativa(respuesta@),
{
    let en_minusculas = minusculas_str(respuesta);
    let recortada = recortar_str(en_minusculas.as_str());
    if recortada.unicode_len() == 1 {
        let c = recortada.get_char(0);
        proof {
            if c == 's' {
                assert(recortada@ =~= seq!['s']);
            } else {
                assert(recortada@ != seq!['s']);
            }
        }
        c == 's'
    } else {
        proof {
            assert(recortada@.len() != 1);
            assert(recortada@ != seq!['s']);
        }
        false
    }
}

} // verus!
