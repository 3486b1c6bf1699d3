//! El manejador del proceso: guarda la configuración, recibe las rutas que
//! el recorrido encontró y las criba en los tres cubos. La criba es una
//! partición pura que conserva el orden: cada cubo es exactamente el filtro
//! de las entradas cuyo destino le corresponde.

use vstd::prelude::*;
use crate::clasificar::{
    clasificar_entrada, contiene_cadena, extension_str, Destino, Entrada, Tipo,
};
use crate::texto::{
    dividir, dividir_str, lema_dividir_no_vacio, lema_recortar_con_punto, minusculas,
    minusculas_str, quitar_puntos, quitar_puntos_str, recortar, recortar_str, vistas,
};

verus! {

broadcast use vstd::seq_lib::group_filter_ensures, vstd::multiset::group_multiset_axioms;

/// Configuración inmutable del proceso: umbral de aviso y lista de
/// extensiones permitidas, ya saneadas (minúsculas, sin blancos alrededor y
/// sin puntos iniciales).
pub struct Configuracion {
    pub aviso: u32,
    pub extensiones_validas: Vec<String>,
}

impl Configuracion {
    /// Vistas de las extensiones permitidas.
    pub open spec fn exts(&self) -> Seq<Seq<char>> {
        vistas(self.extensiones_validas@)
    }
}

/// Saneado de una extensión dada por el usuario: minúsculas, recorte de
/// blancos y supresión de los puntos iniciales, en ese orden.
pub open spec fn sanear_token(t: Seq<char>) -> Seq<char> {
    quitar_puntos(recortar(minusculas(t)))
}

/// Quitar el punto inicial de un texto ya recortado no cambia su saneado:
/// la lista permitida acepta las extensiones con o sin punto.
pub proof fn lema_saneado_sin_punto(t: Seq<char>)
    requires
        recortar(minusculas(t)) == minusculas(t),
    ensures
        sanear_token(seq!['.'] + t) == sanear_token(t),
{
    let con_punto = seq!['.'] + t;
    assert(minusculas(con_punto) =~= seq!['.'] + minusculas(t));
    lema_recortar_con_punto(minusculas(t));
    assert((seq!['.'] + minusculas(t)).drop_first() =~= minusculas(t));
}

/// Construye la configuración a partir de los valores de entrada: divide la
/// lista de extensiones por comas y sanea cada trozo. Siempre queda al
/// menos una extensión, porque toda división tiene al menos un trozo.
pub fn configurar_manejador(extensiones: &str, aviso: u32) -> (c: Configuracion)
    ensures
        c.aviso == aviso,
        c.exts() == dividir(extensiones@, ',').map_values(|t: Seq<char>| sanear_token(t)),
        c.extensiones_validas@.len() >= 1,
{
    let trozos = dividir_str(extensiones, ',');
    let objetivo: Ghost<Seq<Seq<char>>> = Ghost(
        dividir(extensiones@, ',').map_values(|t: Seq<char>| sanear_token(t)),
    );
    let mut extensiones_validas: Vec<String> = Vec::new();
    let n = trozos.len();
    let mut k: usize = 0;
    while k < n
        invariant
            n == trozos@.len(),
            0 <= k <= n,
            vistas(trozos@) == dividir(extensiones@, ','),
            objetivo@ == dividir(extensiones@, ',').map_values(|t: Seq<char>| sanear_token(t)),
            vistas(extensiones_validas@) =~= objetivo@.take(k as int),
        decreases n - k,
    {
        let en_minusculas = minusculas_str(trozos[k].as_str());
        let recortado = recortar_str(en_minusculas.as_str());
        let saneado = quitar_puntos_str(recortado);
        extensiones_validas.push(saneado.to_owned());
        proof {
            assert(saneado@ == sanear_token(trozos@[k as int]@));
            assert(objetivo@[k as int] == sanear_token(vistas(trozos@)[k as int]));
            assert(objetivo@.take(k + 1) =~= objetivo@.take(k as int).push(objetivo@[k as int]));
        }
        k = k + 1;
    }
    proof {
        lema_dividir_no_vacio(extensiones@, ',');
        assert(objetivo@.take(n as int) =~= objetivo@);
    }
    Configuracion { aviso, extensiones_validas }
}

/// Entradas del recorrido cuyo destino es `d`, en su orden original.
pub open spec fn entradas_con_destino(
    entradas: Seq<Entrada>,
    exts: Seq<Seq<char>>,
    d: Destino,
) -> Seq<Entrada> {
    entradas.filter(|e: Entrada| clasificar_entrada(e, exts) == d)
}

/// Rutas de las entradas cuyo destino es `d`, en su orden original.
pub open spec fn rutas_con_destino(
    entradas: Seq<Entrada>,
    exts: Seq<Seq<char>>,
    d: Destino,
) -> Seq<Seq<char>> {
    entradas_con_destino(entradas, exts, d).map_values(|e: Entrada| e.ruta@)
}

/// Manejador del proceso: configuración, rutas encontradas y los tres
/// cubos de la criba.
pub struct Manejador {
    pub configuracion: Configuracion,
    pub rutas: Vec<Entrada>,
    pub archivos_mover: Vec<String>,
    pub archivos_borrar: Vec<String>,
    pub directorios_borrar: Vec<String>,
}

impl Manejador {
    /// Manejador recién configurado, sin rutas ni cubos.
    pub fn new(configuracion: Configuracion) -> (m: Manejador)
        ensures
            m.configuracion == configuracion,
            m.rutas@.len() == 0,
            m.archivos_mover@.len() == 0,
            m.archivos_borrar@.len() == 0,
            m.directorios_borrar@.len() == 0,
    {
        Manejador {
            configuracion,
            rutas: Vec::new(),
            archivos_mover: Vec::new(),
            archivos_borrar: Vec::new(),
            directorios_borrar: Vec::new(),
        }
    }

    /// Registra el resultado del recorrido.
    pub fn registrar_rutas(&mut self, rutas: Vec<Entrada>)
        ensures
            final(self).rutas == rutas,
            final(self).configuracion == old(self).configuracion,
            final(self).archivos_mover == old(self).archivos_mover,
            final(self).archivos_borrar == old(self).archivos_borrar,
            final(self).directorios_borrar == old(self).directorios_borrar,
    {
        self.rutas = rutas;
    }

    /// Criba las rutas registradas: cada cubo queda con exactamente las
    /// rutas de su destino, en el orden del recorrido; las entradas
    /// ilegibles no van a ningún cubo.
    pub fn cribar_archivos(&mut self)
        ensures
            final(self).configuracion == old(self).configuracion,
            final(self).rutas == old(self).rutas,
            vistas(final(self).archivos_mover@) == rutas_con_destino(
                old(self).rutas@,
                old(self).configuracion.exts(),
                Destino::Mover,
            ),
            vistas(final(self).archivos_borrar@) == rutas_con_destino(
                old(self).rutas@,
                old(self).configuracion.exts(),
                Destino::BorrarArchivo,
            ),
            vistas(final(self).directorios_borrar@) == rutas_con_destino(
                old(self).rutas@,
                old(self).configuracion.exts(),
                Destino::BorrarDirectorio,
            ),
    {
        let ghost exts = self.configuracion.exts();
        let mut archivos_mover: Vec<String> = Vec::new();
        let mut archivos_borrar: Vec<String> = Vec::new();
        let mut directorios_borrar: Vec<String> = Vec::new();
        let n = self.rutas.len();
        let mut i: usize = 0;
        proof {
            lema_cribado_vacio(exts);
            assert(self.rutas@.take(0) =~= Seq::<Entrada>::empty());
            assert(vistas(archivos_mover@) =~= Seq::<Seq<char>>::empty());
            assert(vistas(archivos_borrar@) =~= Seq::<Seq<char>>::empty());
            assert(vistas(directorios_borrar@) =~= Seq::<Seq<char>>::empty());
        }
        while i < n
            invariant
                n == self.rutas@.len(),
                0 <= i <= n,
                exts == self.configuracion.exts(),
                *self == *old(self),
                vistas(archivos_mover@) == rutas_con_destino(
                    self.rutas@.take(i as int),
                    exts,
                    Destino::Mover,
                ),
                vistas(archivos_borrar@) == rutas_con_destino(
                    self.rutas@.take(i as int),
                    exts,
                    Destino::BorrarArchivo,
                ),
                vistas(directorios_borrar@) == rutas_con_destino(
                    self.rutas@.take(i as int),
                    exts,
                    Destino::BorrarDirectorio,
                ),
            decreases n - i,
        {
            let destino = clasificar_ruta(&self.rutas[i], &self.configuracion.extensiones_validas);
            proof {
                lema_paso_cribado(self.rutas@, exts, i as int, Destino::Mover);
                lema_paso_cribado(self.rutas@, exts, i as int, Destino::BorrarArchivo);
                lema_paso_cribado(self.rutas@, exts, i as int, Destino::BorrarDirectorio);
            }
            let ghost mover_antes = archivos_mover@;
            let ghost borrar_antes = archivos_borrar@;
            let ghost dirs_antes = directorios_borrar@;
            match destino {
                Destino::Mover => archivos_mover.push(self.rutas[i].ruta.clone()),
                Destino::BorrarArchivo => archivos_borrar.push(self.rutas[i].ruta.clone()),
                Destino::BorrarDirectorio => directorios_borrar.push(self.rutas[i].ruta.clone()),
                Destino::Omitir => (),
            }
            proof {
                assert(vistas(archivos_mover@) =~= if destino == Destino::Mover {
                    vistas(mover_antes).push(self.rutas@[i as int].ruta@)
                } else {
                    vistas(mover_antes)
                });
                assert(vistas(archivos_borrar@) =~= if destino == Destino::BorrarArchivo {
                    vistas(borrar_antes).push(self.rutas@[i as int].ruta@)
                } else {
                    vistas(borrar_antes)
                });
                assert(vistas(directorios_borrar@) =~= if destino == Destino::BorrarDirectorio {
                    vistas(dirs_antes).push(self.rutas@[i as int].ruta@)
                } else {
                    vistas(dirs_antes)
                });
            }
            i = i + 1;
        }
        proof {
            assert(self.rutas@.take(n as int) =~= self.rutas@);
        }
        self.archivos_mover = archivos_mover;
        self.archivos_borrar = archivos_borrar;
        self.directorios_borrar = directorios_borrar;
    }
}

/// Cubo de una entrada, calculado sobre los valores ejecutables.
pub fn clasificar_ruta(e: &Entrada, extensiones_validas: &Vec<String>) -> (d: Destino)
    ensures
        d == clasificar_entrada(*e, vistas(extensiones_validas@)),
{
    match e.tipo {
        Tipo::Directorio => Destino::BorrarDirectorio,
        Tipo::Inaccesible => Destino::Omitir,
        Tipo::Archivo => {
            match extension_str(e.ruta.as_str()) {
                None => Destino::BorrarArchivo,
                Some(x) => {
                    let en_minusculas = minusculas_str(x);
                    if contiene_cadena(extensiones_validas, &en_minusculas) {
                        Destino::Mover
                    } else {
                        Destino::BorrarArchivo
                    }
                },
            }
        },
    }
}

/// La criba es una partición completa: cada entrada del recorrido acaba en
/// exactamente un cubo (u omitida), los cubos juntos devuelven el multiset
/// de las entradas, y cada cubo contiene solo entradas de su destino.
pub proof fn lema_particion_completa(entradas: Seq<Entrada>, exts: Seq<Seq<char>>)
    ensures
        entradas_con_destino(entradas, exts, Destino::Mover).len() + entradas_con_destino(
            entradas,
            exts,
            Destino::BorrarArchivo,
        ).len() + entradas_con_destino(entradas, exts, Destino::BorrarDirectorio).len()
            + entradas_con_destino(entradas, exts, Destino::Omitir).len() == entradas.len(),
        entradas_con_destino(entradas, exts, Destino::Mover).to_multiset().add(
            entradas_con_destino(entradas, exts, Destino::BorrarArchivo).to_multiset(),
        ).add(entradas_con_destino(entradas, exts, Destino::BorrarDirectorio).to_multiset()).add(
            entradas_con_destino(entradas, exts, Destino::Omitir).to_multiset(),
        ) =~= entradas.to_multiset(),
        forall|e: Entrada, d: Destino|
            #[trigger] entradas_con_destino(entradas, exts, d).contains(e)
                ==> clasificar_entrada(e, exts) == d,
    decreases entradas.len(),
{
    broadcast use vstd::seq_lib::group_to_multiset_ensures;

    reveal(Seq::filter);
    if entradas.len() == 0 {
        assert forall|d: Destino| entradas_con_destino(entradas, exts, d).len() == 0 by {}
        assert(entradas.to_multiset() =~= vstd::multiset::Multiset::<Entrada>::empty());
    } else {
        let cortas = entradas.drop_last();
        let e = entradas.last();
        lema_particion_completa(cortas, exts);
        assert(entradas =~= cortas.push(e));
        assert(entradas.to_multiset() =~= cortas.to_multiset().insert(e));
        assert forall|d: Destino|
            entradas_con_destino(entradas, exts, d) == (if clasificar_entrada(e, exts) == d {
                entradas_con_destino(cortas, exts, d).push(e)
            } else {
                entradas_con_destino(cortas, exts, d)
            }) by {}
        assert(entradas_con_destino(entradas, exts, Destino::Mover).to_multiset().add(
            entradas_con_destino(entradas, exts, Destino::BorrarArchivo).to_multiset(),
        ).add(entradas_con_destino(entradas, exts, Destino::BorrarDirectorio).to_multiset()).add(
            entradas_con_destino(entradas, exts, Destino::Omitir).to_multiset(),
        ) =~= entradas.to_multiset());
        assert forall|x: Entrada, d: Destino|
            #[trigger] entradas_con_destino(entradas, exts, d).contains(x) implies clasificar_entrada(
            x,
            exts,
        ) == d by {
            let k = choose|k: int|
                0 <= k < entradas_con_destino(entradas, exts, d).len() && entradas_con_destino(
                    entradas,
                    exts,
                    d,
                )[k] == x;
            assert(entradas_con_destino(entradas, exts, d)[k] == x);
        }
    }
}

/// Sobre cero entradas, los tres cubos están vacíos.
proof fn lema_cribado_vacio(exts: Seq<Seq<char>>)
    ensures
        forall|d: Destino|
            rutas_con_destino(Seq::<Entrada>::empty(), exts, d) =~= Seq::<Seq<char>>::empty(),
{
    reveal(Seq::filter);
    assert forall|d: Destino|
        rutas_con_destino(Seq::<Entrada>::empty(), exts, d) =~= Seq::<Seq<char>>::empty() by {
        assert(entradas_con_destino(Seq::<Entrada>::empty(), exts, d).len() == 0);
    }
}

/// Paso de la criba: añadir la entrada `i` alarga el cubo de su destino con
/// su ruta y deja los demás cubos igual.
proof fn lema_paso_cribado(entradas: Seq<Entrada>, exts: Seq<Seq<char>>, i: int, d: Destino)
    requires
        0 <= i < entradas.len(),
    ensures
        rutas_con_destino(entradas.take(i + 1), exts, d) == if clasificar_entrada(entradas[i], exts)
            == d {
            rutas_con_destino(entradas.take(i), exts, d).push(entradas[i].ruta@)
        } else {
            rutas_con_destino(entradas.take(i), exts, d)
        },
{
    reveal(Seq::filter);
    assert(entradas.take(i + 1).drop_last() =~= entradas.take(i));
    assert(entradas.take(i + 1).last() == entradas[i]);
    let filtro_corto = entradas_con_destino(entradas.take(i), exts, d);
    if clasificar_entrada(entradas[i], exts) == d {
        assert(entradas_con_destino(entradas.take(i + 1), exts, d) == filtro_corto.push(
            entradas[i],
        ));
        assert(filtro_corto.push(entradas[i]).map_values(|e: Entrada| e.ruta@)
            =~= filtro_corto.map_values(|e: Entrada| e.ruta@).push(entradas[i].ruta@));
    } else {
        assert(entradas_con_destino(entradas.take(i + 1), exts, d) == filtro_corto);
    }
}

} // verus!
