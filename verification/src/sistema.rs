//! Modelo del sistema de archivos sobre el que se verifica la mutación: un
//! conjunto de rutas con su tipo (archivo o directorio), visto como un
//! mapa de la ruta a «es directorio». Las tres fases del mutador (mover,
//! borrar archivos, borrar directorios) están especificadas y probadas
//! sobre este modelo; la entrada/salida real reproduce fuera las mismas
//! operaciones.

use vstd::prelude::*;
use crate::clasificar::nombre_archivo;
use crate::texto::cadenas_iguales;
use vstd::string::StringExecFns;

verus! {

broadcast use vstd::seq_lib::group_filter_ensures;

/// Una ruta presente en el modelo, con su tipo.
pub struct Nodo {
    pub ruta: String,
    pub es_directorio: bool,
}

/// El modelo del árbol: las rutas presentes y su tipo. Si una ruta figura
/// dos veces, vale la última.
pub struct Sistema {
    pub nodos: Vec<Nodo>,
}

/// Mapa de rutas a «es directorio» que describe una lista de nodos.
pub open spec fn mapa_de(s: Seq<Nodo>) -> Map<Seq<char>, bool>
    decreases s.len(),
{
    if s.len() == 0 {
        Map::empty()
    } else {
        mapa_de(s.drop_last()).insert(s.last().ruta@, s.last().es_directorio)
    }
}

/// Una ruta está en el mapa exactamente cuando algún nodo la lleva.
pub proof fn lema_mapa_contiene(s: Seq<Nodo>, r: Seq<char>)
    ensures
        mapa_de(s).dom().contains(r) <==> exists|i: int| 0 <= i < s.len() && s[i].ruta@ == r,
    decreases s.len(),
{
    if s.len() > 0 {
        lema_mapa_contiene(s.drop_last(), r);
        if s.last().ruta@ == r {
            assert(s[s.len() - 1].ruta@ == r);
        } else if exists|i: int| 0 <= i < s.len() && s[i].ruta@ == r {
            let i = choose|i: int| 0 <= i < s.len() && s[i].ruta@ == r;
            assert(s.drop_last()[i] == s[i]);
        }
    }
}

/// El valor del mapa en una ruta es el del último nodo que la lleva.
pub proof fn lema_mapa_valor(s: Seq<Nodo>, i: int)
    requires
        0 <= i < s.len(),
        forall|j: int| i < j < s.len() ==> s[j].ruta@ != s[i].ruta@,
    ensures
        mapa_de(s).dom().contains(s[i].ruta@),
        mapa_de(s)[s[i].ruta@] == s[i].es_directorio,
    decreases s.len(),
{
    if i == s.len() - 1 {
    } else {
        assert(forall|j: int| 0 <= j < s.len() - 1 ==> s.drop_last()[j] == s[j]);
        lema_mapa_valor(s.drop_last(), i);
    }
}

/// Cierre que conserva los nodos cuya ruta no está entre las quitadas.
pub open spec fn fuera_de(quitadas: Set<Seq<char>>) -> spec_fn(Nodo) -> bool {
    |nd: Nodo| !quitadas.contains(nd.ruta@)
}

/// Los nodos que quedan al quitar un conjunto de rutas.
pub open spec fn nodos_sin(s: Seq<Nodo>, quitadas: Set<Seq<char>>) -> Seq<Nodo> {
    s.filter(fuera_de(quitadas))
}

/// Quitar de la lista los nodos de ciertas rutas es quitar del mapa esas
/// claves.
pub proof fn lema_mapa_sin_claves(s: Seq<Nodo>, quitadas: Set<Seq<char>>)
    ensures
        mapa_de(nodos_sin(s, quitadas)) == mapa_de(s).remove_keys(quitadas),
    decreases s.len(),
{
    reveal(Seq::filter);
    if s.len() == 0 {
        assert(mapa_de(s).remove_keys(quitadas) =~= Map::<Seq<char>, bool>::empty());
    } else {
        let cortas = s.drop_last();
        let nd = s.last();
        lema_mapa_sin_claves(cortas, quitadas);
        if quitadas.contains(nd.ruta@) {
            assert(nodos_sin(s, quitadas) == nodos_sin(cortas, quitadas));
            assert(mapa_de(cortas).insert(nd.ruta@, nd.es_directorio).remove_keys(quitadas)
                =~= mapa_de(cortas).remove_keys(quitadas));
        } else {
            assert(nodos_sin(s, quitadas) == nodos_sin(cortas, quitadas).push(nd));
            assert(nodos_sin(cortas, quitadas).push(nd).drop_last() =~= nodos_sin(
                cortas,
                quitadas,
            ));
            assert(mapa_de(nodos_sin(cortas, quitadas).push(nd)) == mapa_de(
                nodos_sin(cortas, quitadas),
            ).insert(nd.ruta@, nd.es_directorio));
            assert(mapa_de(cortas).insert(nd.ruta@, nd.es_directorio).remove_keys(quitadas)
                =~= mapa_de(cortas).remove_keys(quitadas).insert(nd.ruta@, nd.es_directorio));
        }
    }
}

/// Paso del filtro de nodos: añadir el nodo `i` alarga el filtro si el
/// nodo pasa el criterio y lo deja igual si no.
proof fn lema_paso_filtro(s: Seq<Nodo>, criterio: spec_fn(Nodo) -> bool, i: int)
    requires
        0 <= i < s.len(),
    ensures
        s.take(i + 1).filter(criterio) == (if criterio(s[i]) {
            s.take(i).filter(criterio).push(s[i])
        } else {
            s.take(i).filter(criterio)
        }),
{
    reveal(Seq::filter);
    assert(s.take(i + 1).drop_last() =~= s.take(i));
    assert(s.take(i + 1).last() == s[i]);
}

/// La ruta `p` cuelga del directorio `d`: `d` seguido de una barra es
/// prefijo de `p`.
pub open spec fn bajo(d: Seq<char>, p: Seq<char>) -> bool {
    p.len() > d.len() && p.take(d.len() as int) == d && p[d.len() as int] == '/'
}

/// Las rutas que caen al borrar el directorio `d`: él mismo y todo lo que
/// cuelga de él.
pub open spec fn afectados(d: Seq<char>) -> Set<Seq<char>> {
    Set::new(|p: Seq<char>| p == d || bajo(d, p))
}

/// Las rutas que caen al borrar una lista de directorios, en cualquier
/// orden.
pub open spec fn afectados_en(dirs: Seq<Seq<char>>) -> Set<Seq<char>> {
    Set::new(
        |p: Seq<char>| exists|i: int| 0 <= i < dirs.len() && (p == dirs[i] || bajo(dirs[i], p)),
    )
}

/// Hay en el mapa alguna ruta que cuelga de `d`.
pub open spec fn hay_bajo(m: Map<Seq<char>, bool>, d: Seq<char>) -> bool {
    exists|p: Seq<char>| m.dom().contains(p) && bajo(d, p)
}

/// Destino de una reubicación: el nombre de archivo bajo la raíz.
pub open spec fn destino_en_raiz(ruta: Seq<char>) -> Seq<char> {
    seq!['.', '/'] + nombre_archivo(ruta)
}

/// Destino de una reubicación.
pub fn ruta_destino(ruta: &str) -> (r: String)
    ensures
        r@ == destino_en_raiz(ruta@),
{
    let nombre = crate::clasificar::nombre_archivo_str(ruta);
    let mut r = "./".to_owned();
    r.append(nombre);
    proof {
        reveal_strlit("./");
        assert(r@ =~= seq!['.', '/'] + nombre_archivo(ruta@));
    }
    r
}

/// Efecto de reubicar una ruta: si está presente y es un archivo, pasa a
/// estar bajo la raíz con su nombre (si ya había algo con ese nombre bajo
/// la raíz, queda sobrescrito); si no está o no es un archivo, no ocurre
/// nada, porque solo se reubican archivos que la criba vio en disco.
pub open spec fn paso_mover(m: Map<Seq<char>, bool>, r: Seq<char>) -> Map<Seq<char>, bool> {
    if m.dom().contains(r) && m[r] == false {
        m.remove(r).insert(destino_en_raiz(r), false)
    } else {
        m
    }
}

/// Efecto de la fase de reubicación, ruta a ruta y en orden.
pub open spec fn tras_mover(m: Map<Seq<char>, bool>, rutas: Seq<Seq<char>>) -> Map<Seq<char>, bool>
    decreases rutas.len(),
{
    if rutas.len() == 0 {
        m
    } else {
        tras_mover(paso_mover(m, rutas.first()), rutas.drop_first())
    }
}

/// Efecto de la fase de borrado de archivos, ruta a ruta y en orden.
pub open spec fn tras_borrar_archivos(
    m: Map<Seq<char>, bool>,
    rutas: Seq<Seq<char>>,
) -> Map<Seq<char>, bool>
    decreases rutas.len(),
{
    if rutas.len() == 0 {
        m
    } else {
        tras_borrar_archivos(m.remove(rutas.first()), rutas.drop_first())
    }
}

/// Efecto del plan entero sobre el modelo: mover, borrar archivos y borrar
/// directorios, en ese orden.
pub open spec fn plan_aplicado(
    m: Map<Seq<char>, bool>,
    mover: Seq<Seq<char>>,
    borrar: Seq<Seq<char>>,
    dirs: Seq<Seq<char>>,
) -> Map<Seq<char>, bool> {
    tras_borrar_archivos(tras_mover(m, mover), borrar).remove_keys(afectados_en(dirs))
}

/// La ruta `p` cuelga del directorio `d`.
pub fn bajo_str(d: &str, p: &str) -> (r: bool)
    ensures
        r == bajo(d@, p@),
{
    let nd = d.unicode_len();
    let np = p.unicode_len();
    if np <= nd {
        return false;
    }
    let mut j: usize = 0;
    while j < nd
        invariant
            nd == d@.len(),
            np == p@.len(),
            np > nd,
            0 <= j <= nd,
            forall|k: int| 0 <= k < j ==> p@[k] == d@[k],
        decreases nd - j,
    {
        if p.get_char(j) != d.get_char(j) {
            proof {
                assert(p@.take(nd as int)[j as int] != d@[j as int]);
            }
            return false;
        }
        j = j + 1;
    }
    proof {
        assert(p@.take(nd as int) =~= d@);
    }
    p.get_char(nd) == '/'
}

impl Sistema {
    /// El mapa que el modelo describe.
    pub open spec fn contenido(&self) -> Map<Seq<char>, bool> {
        mapa_de(self.nodos@)
    }

    /// Modelo vacío.
    pub fn nuevo() -> (s: Sistema)
        ensures
            s.contenido() == Map::<Seq<char>, bool>::empty(),
    {
        Sistema { nodos: Vec::new() }
    }

    /// Añade (o reescribe) una ruta.
    pub fn poner(&mut self, ruta: String, es_directorio: bool)
        ensures
            final(self).contenido() == old(self).contenido().insert(ruta@, es_directorio),
    {
        let ghost antes = self.nodos@;
        self.nodos.push(Nodo { ruta, es_directorio });
        proof {
            assert(self.nodos@.drop_last() =~= antes);
        }
    }

    /// La ruta está presente.
    pub fn contiene(&self, ruta: &str) -> (r: bool)
        ensures
            r == self.contenido().dom().contains(ruta@),
    {
        let n = self.nodos.len();
        let mut i: usize = 0;
        while i < n
            invariant
                n == self.nodos@.len(),
                0 <= i <= n,
                forall|j: int| 0 <= j < i ==> self.nodos@[j].ruta@ != ruta@,
            decreases n - i,
        {
            if cadenas_iguales(self.nodos[i].ruta.as_str(), ruta) {
                proof {
                    lema_mapa_contiene(self.nodos@, ruta@);
                    assert(exists|j: int|
                        0 <= j < self.nodos@.len() && self.nodos@[j].ruta@ == ruta@) by {
                        assert(self.nodos@[i as int].ruta@ == ruta@);
                    }
                }
                return true;
            }
            i = i + 1;
        }
        proof {
            lema_mapa_contiene(self.nodos@, ruta@);
        }
        false
    }

    /// El tipo de la ruta, si está presente.
    pub fn estado(&self, ruta: &str) -> (r: Option<bool>)
        ensures
            match r {
                Some(es_dir) => self.contenido().dom().contains(ruta@) && self.contenido()[ruta@]
                    == es_dir,
                None => !self.contenido().dom().contains(ruta@),
            },
    {
        let n = self.nodos.len();
        let mut b: usize = n;
        while b > 0
            invariant
                n == self.nodos@.len(),
                0 <= b <= n,
                forall|j: int| b <= j < n ==> self.nodos@[j].ruta@ != ruta@,
            decreases b,
        {
            if cadenas_iguales(self.nodos[b - 1].ruta.as_str(), ruta) {
                proof {
                    lema_mapa_valor(self.nodos@, b - 1);
                }
                return Some(self.nodos[b - 1].es_directorio);
            }
            b = b - 1;
        }
        proof {
            lema_mapa_contiene(self.nodos@, ruta@);
        }
        None
    }

    /// Quita una ruta (todas sus apariciones).
    pub fn quitar(&mut self, ruta: &str)
        ensures
            final(self).contenido() == old(self).contenido().remove(ruta@),
    {
        let ghost quitadas = Set::new(|p: Seq<char>| p == ruta@);
        let mut nuevos: Vec<Nodo> = Vec::new();
        let n = self.nodos.len();
        let mut i: usize = 0;
        proof {
            reveal(Seq::filter);
            assert(self.nodos@.take(0) =~= Seq::<Nodo>::empty());
        }
        while i < n
            invariant
                n == self.nodos@.len(),
                *self == *old(self),
                0 <= i <= n,
                quitadas == Set::new(|p: Seq<char>| p == ruta@),
                nuevos@ == nodos_sin(self.nodos@.take(i as int), quitadas),
            decreases n - i,
        {
            proof {
                lema_paso_filtro(self.nodos@, fuera_de(quitadas), i as int);
            }
            if !cadenas_iguales(self.nodos[i].ruta.as_str(), ruta) {
                nuevos.push(
                    Nodo {
                        ruta: self.nodos[i].ruta.clone(),
                        es_directorio: self.nodos[i].es_directorio,
                    },
                );
                proof {
                    assert(nuevos@.last() == self.nodos@[i as int]);
                    assert(nuevos@.drop_last() =~= nodos_sin(self.nodos@.take(i as int), quitadas));
                    assert(nuevos@ =~= nodos_sin(self.nodos@.take(i as int), quitadas).push(
                        self.nodos@[i as int],
                    ));
                }
            }
            i = i + 1;
        }
        proof {
            assert(self.nodos@.take(n as int) =~= self.nodos@);
            lema_mapa_sin_claves(self.nodos@, quitadas);
            assert(mapa_de(self.nodos@).remove_keys(quitadas) =~= mapa_de(self.nodos@).remove(
                ruta@,
            ));
        }
        self.nodos = nuevos;
    }

    /// Hay alguna ruta presente que cuelga del directorio.
    pub fn tiene_descendientes(&self, ruta: &str) -> (r: bool)
        ensures
            r == hay_bajo(self.contenido(), ruta@),
    {
        let n = self.nodos.len();
        let mut i: usize = 0;
        while i < n
            invariant
                n == self.nodos@.len(),
                0 <= i <= n,
                forall|j: int| 0 <= j < i ==> !bajo(ruta@, self.nodos@[j].ruta@),
            decreases n - i,
        {
            if bajo_str(ruta, self.nodos[i].ruta.as_str()) {
                proof {
                    let hallada = self.nodos@[i as int].ruta@;
                    lema_mapa_contiene(self.nodos@, hallada);
                    assert(exists|j: int|
                        0 <= j < self.nodos@.len() && self.nodos@[j].ruta@ == hallada) by {
                        assert(self.nodos@[i as int].ruta@ == hallada);
                    }
                    assert(self.contenido().dom().contains(hallada));
                }
                return true;
            }
            i = i + 1;
        }
        proof {
            assert forall|p: Seq<char>|
                self.contenido().dom().contains(p) implies !bajo(ruta@, p) by {
                lema_mapa_contiene(self.nodos@, p);
                let j = choose|j: int| 0 <= j < self.nodos@.len() && self.nodos@[j].ruta@ == p;
                assert(!bajo(ruta@, self.nodos@[j].ruta@));
            }
        }
        false
    }

    /// Quita el directorio y todo lo que cuelga de él.
    pub fn quitar_subarbol(&mut self, ruta: &str)
        ensures
            final(self).contenido() == old(self).contenido().remove_keys(afectados(ruta@)),
    {
        let ghost quitadas = afectados(ruta@);
        let mut nuevos: Vec<Nodo> = Vec::new();
        let n = self.nodos.len();
        let mut i: usize = 0;
        proof {
            reveal(Seq::filter);
            assert(self.nodos@.take(0) =~= Seq::<Nodo>::empty());
        }
        while i < n
            invariant
                n == self.nodos@.len(),
                *self == *old(self),
                0 <= i <= n,
                quitadas == afectados(ruta@),
                nuevos@ == nodos_sin(self.nodos@.take(i as int), quitadas),
            decreases n - i,
        {
            proof {
                lema_paso_filtro(self.nodos@, fuera_de(quitadas), i as int);
            }
            let igual = cadenas_iguales(self.nodos[i].ruta.as_str(), ruta);
            let cuelga = bajo_str(ruta, self.nodos[i].ruta.as_str());
            if !igual && !cuelga {
                nuevos.push(
                    Nodo {
                        ruta: self.nodos[i].ruta.clone(),
                        es_directorio: self.nodos[i].es_directorio,
                    },
                );
                proof {
                    assert(nuevos@.last() == self.nodos@[i as int]);
                    assert(nuevos@.drop_last() =~= nodos_sin(self.nodos@.take(i as int), quitadas));
                    assert(nuevos@ =~= nodos_sin(self.nodos@.take(i as int), quitadas).push(
                        self.nodos@[i as int],
                    ));
                }
            }
            i = i + 1;
        }
        proof {
            assert(self.nodos@.take(n as int) =~= self.nodos@);
            lema_mapa_sin_claves(self.nodos@, quitadas);
        }
        self.nodos = nuevos;
    }

    /// Borra un directorio con la política de dos niveles: si no tiene
    /// descendientes basta quitarlo; si los tiene (posible, porque el cubo
    /// de directorios llega en orden arbitrario), se recurre al borrado
    /// recursivo del subárbol entero. El efecto neto es el mismo: caen el
    /// directorio y todo lo que cuelga de él.
    pub fn borrar_directorio(&mut self, ruta: &str)
        ensures
            final(self).contenido() == old(self).contenido().remove_keys(afectados(ruta@)),
    {
        if self.tiene_descendientes(ruta) {
            self.quitar_subarbol(ruta);
        } else {
            let ghost antes = self.contenido();
            self.quitar(ruta);
            proof {
                assert forall|p: Seq<char>|
                    antes.dom().contains(p) && afectados(ruta@).contains(p) implies p == ruta@ by {
                    assert(!bajo(ruta@, p));
                }
                assert(antes.remove(ruta@) =~= antes.remove_keys(afectados(ruta@)));
            }
        }
    }

    /// Primera fase: reubica cada archivo del cubo de mover bajo la raíz,
    /// en el orden del cubo.
    pub fn mover_archivos(&mut self, rutas: &Vec<String>)
        ensures
            final(self).contenido() == tras_mover(
                old(self).contenido(),
                crate::texto::vistas(rutas@),
            ),
    {
        let ghost objetivo = crate::texto::vistas(rutas@);
        let n = rutas.len();
        let mut i: usize = 0;
        proof {
            assert(objetivo.skip(0) =~= objetivo);
        }
        while i < n
            invariant
                n == rutas@.len(),
                0 <= i <= n,
                objetivo == crate::texto::vistas(rutas@),
                tras_mover(old(self).contenido(), objetivo) == tras_mover(
                    self.contenido(),
                    objetivo.skip(i as int),
                ),
            decreases n - i,
        {
            let ghost antes = self.contenido();
            let ghost r = objetivo.skip(i as int).first();
            proof {
                assert(r == rutas@[i as int]@);
            }
            match self.estado(rutas[i].as_str()) {
                Some(false) => {
                    let destino = ruta_destino(rutas[i].as_str());
                    self.quitar(rutas[i].as_str());
                    self.poner(destino, false);
                    proof {
                        assert(self.contenido() == paso_mover(antes, r));
                    }
                },
                _ => {
                    proof {
                        assert(self.contenido() == paso_mover(antes, r));
                    }
                },
            }
            proof {
                assert(objetivo.skip(i as int).drop_first() =~= objetivo.skip(i + 1));
            }
            i = i + 1;
        }
        proof {
            assert(objetivo.skip(n as int) =~= Seq::<Seq<char>>::empty());
        }
    }

    /// Segunda fase: borra cada archivo del cubo de borrado, en orden.
    pub fn borrar_archivos(&mut self, rutas: &Vec<String>)
        ensures
            final(self).contenido() == tras_borrar_archivos(
                old(self).contenido(),
                crate::texto::vistas(rutas@),
            ),
    {
        let ghost objetivo = crate::texto::vistas(rutas@);
        let n = rutas.len();
        let mut i: usize = 0;
        proof {
            assert(objetivo.skip(0) =~= objetivo);
        }
        while i < n
            invariant
                n == rutas@.len(),
                0 <= i <= n,
                objetivo == crate::texto::vistas(rutas@),
                tras_borrar_archivos(old(self).contenido(), objetivo) == tras_borrar_archivos(
                    self.contenido(),
                    objetivo.skip(i as int),
                ),
            decreases n - i,
        {
            proof {
                assert(objetivo.skip(i as int).first() == rutas@[i as int]@);
                assert(objetivo.skip(i as int).drop_first() =~= objetivo.skip(i + 1));
            }
            self.quitar(rutas[i].as_str());
            i = i + 1;
        }
        proof {
            assert(objetivo.skip(n as int) =~= Seq::<Seq<char>>::empty());
        }
    }

    /// Tercera fase: borra cada directorio del cubo, en orden, con la
    /// política de dos niveles. El resultado no depende del orden del
    /// cubo: caen los directorios listados y todo lo que cuelga de ellos.
    pub fn borrar_directorios(&mut self, rutas: &Vec<String>)
        ensures
            final(self).contenido() == old(self).contenido().remove_keys(
                afectados_en(crate::texto::vistas(rutas@)),
            ),
    {
        let ghost objetivo = crate::texto::vistas(rutas@);
        let n = rutas.len();
        let mut i: usize = 0;
        proof {
            lema_afectados_vacio();
            assert(objetivo.take(0) =~= Seq::<Seq<char>>::empty());
            assert(old(self).contenido().remove_keys(afectados_en(objetivo.take(0)))
                =~= old(self).contenido());
        }
        while i < n
            invariant
                n == rutas@.len(),
                0 <= i <= n,
                objetivo == crate::texto::vistas(rutas@),
                self.contenido() == old(self).contenido().remove_keys(
                    afectados_en(objetivo.take(i as int)),
                ),
            decreases n - i,
        {
            let ghost antes = self.contenido();
            self.borrar_directorio(rutas[i].as_str());
            proof {
                lema_afectados_paso(objetivo, i as int);
                assert(antes.remove_keys(afectados(objetivo[i as int]))
                    =~= old(self).contenido().remove_keys(afectados_en(objetivo.take(i + 1))));
            }
            i = i + 1;
        }
        proof {
            assert(objetivo.take(n as int) =~= objetivo);
        }
    }

    /// Aplica el plan de la criba al modelo, si hay autorización. Sin
    /// autorización no se toca nada: el modelo queda exactamente igual.
    pub fn ejecutar_plan(&mut self, manejador: &crate::manejador::Manejador, continuar: bool)
        ensures
            !continuar ==> final(self).contenido() == old(self).contenido(),
            continuar ==> final(self).contenido() == plan_aplicado(
                old(self).contenido(),
                crate::texto::vistas(manejador.archivos_mover@),
                crate::texto::vistas(manejador.archivos_borrar@),
                crate::texto::vistas(manejador.directorios_borrar@),
            ),
    {
        if !continuar {
            return ;
        }
        self.mover_archivos(&manejador.archivos_mover);
        self.borrar_archivos(&manejador.archivos_borrar);
        self.borrar_directorios(&manejador.directorios_borrar);
    }
}

/// Ningún directorio en la lista vacía: no cae nada.
proof fn lema_afectados_vacio()
    ensures
        forall|p: Seq<char>| !afectados_en(Seq::<Seq<char>>::empty()).contains(p),
{
}

/// Paso de la tercera fase: las rutas que caen con un directorio más son
/// las de antes junto a las del directorio añadido.
proof fn lema_afectados_paso(dirs: Seq<Seq<char>>, i: int)
    requires
        0 <= i < dirs.len(),
    ensures
        afectados_en(dirs.take(i + 1)) =~= afectados_en(dirs.take(i)).union(afectados(dirs[i])),
{
    let corto = dirs.take(i);
    let largo = dirs.take(i + 1);
    assert forall|p: Seq<char>| afectados_en(largo).contains(p) implies afectados_en(
        corto,
    ).union(afectados(dirs[i])).contains(p) by {
        let j = choose|j: int| 0 <= j < largo.len() && (p == largo[j] || bajo(largo[j], p));
        if j < i {
            assert(corto[j] == largo[j]);
            assert(exists|k: int| 0 <= k < corto.len() && (p == corto[k] || bajo(corto[k], p)))
                by {
                assert(p == corto[j] || bajo(corto[j], p));
            }
        } else {
            assert(largo[j] == dirs[i]);
        }
    }
    assert forall|p: Seq<char>|
        afectados_en(corto).union(afectados(dirs[i])).contains(p) implies afectados_en(
        largo,
    ).contains(p) by {
        if afectados_en(corto).contains(p) {
            let j = choose|j: int| 0 <= j < corto.len() && (p == corto[j] || bajo(corto[j], p));
            assert(largo[j] == corto[j]);
            assert(exists|k: int| 0 <= k < largo.len() && (p == largo[k] || bajo(largo[k], p)))
                by {
                assert(p == largo[j] || bajo(largo[j], p));
            }
        } else {
            assert(largo[i] == dirs[i]);
            assert(exists|k: int| 0 <= k < largo.len() && (p == largo[k] || bajo(largo[k], p)))
                by {
                assert(p == largo[i] || bajo(largo[i], p));
            }
        }
    }
}

/// El borrado de directorios tolera el anidamiento: todo directorio de la
/// lista, y toda ruta que cuelgue de uno de ellos, queda fuera del
/// resultado, sea cual sea el orden de la lista.
pub proof fn lema_anidamiento_tolerado(
    m: Map<Seq<char>, bool>,
    dirs: Seq<Seq<char>>,
    i: int,
    p: Seq<char>,
)
    requires
        0 <= i < dirs.len(),
        p == dirs[i] || bajo(dirs[i], p),
    ensures
        !m.remove_keys(afectados_en(dirs)).dom().contains(p),
{
    assert(afectados_en(dirs).contains(p)) by {
        assert(exists|k: int| 0 <= k < dirs.len() && (p == dirs[k] || bajo(dirs[k], p))) by {
            assert(p == dirs[i] || bajo(dirs[i], p));
        }
    }
}

/// El conjunto de rutas que caen con la tercera fase solo depende de qué
/// directorios hay en el cubo, no de su orden ni de sus repeticiones.
pub proof fn lema_orden_indiferente(dirs1: Seq<Seq<char>>, dirs2: Seq<Seq<char>>)
    requires
        dirs1.to_set() == dirs2.to_set(),
    ensures
        afectados_en(dirs1) == afectados_en(dirs2),
{
    assert forall|p: Seq<char>| afectados_en(dirs1).contains(p) implies afectados_en(
        dirs2,
    ).contains(p) by {
        lema_afectados_cambio_de_lista(dirs1, dirs2, p);
    }
    assert forall|p: Seq<char>| afectados_en(dirs2).contains(p) implies afectados_en(
        dirs1,
    ).contains(p) by {
        lema_afectados_cambio_de_lista(dirs2, dirs1, p);
    }
    assert(afectados_en(dirs1) =~= afectados_en(dirs2));
}

proof fn lema_afectados_cambio_de_lista(de: Seq<Seq<char>>, a: Seq<Seq<char>>, p: Seq<char>)
    requires
        de.to_set() == a.to_set(),
        afectados_en(de).contains(p),
    ensures
        afectados_en(a).contains(p),
{
    let j = choose|j: int| 0 <= j < de.len() && (p == de[j] || bajo(de[j], p));
    assert(de.to_set().contains(de[j])) by {
        assert(de.contains(de[j])) by {
            assert(de[j] == de[j]);
        }
    }
    assert(a.contains(de[j]));
    let k = choose|k: int| 0 <= k < a.len() && a[k] == de[j];
    assert(exists|m: int| 0 <= m < a.len() && (p == a[m] || bajo(a[m], p))) by {
        assert(p == a[k] || bajo(a[k], p));
    }
}

} // verus!
