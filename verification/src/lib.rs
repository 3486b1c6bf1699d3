//! Limpiador de directorios: recorre un árbol de archivos, separa los
//! archivos multimedia (según una lista de extensiones permitidas) de todo
//! lo demás, y planifica tres fases de mutación: mover los archivos
//! conservados a la raíz, borrar los archivos descartados y borrar los
//! directorios sobrantes.
//!
//! La biblioteca contiene toda la lógica verificada; la entrada/salida real
//! (recorrido del disco, borrados, consola) queda fuera.

pub mod clasificar;
pub mod guardia;
pub mod manejador;
pub mod sistema;
pub mod texto;
