//! Utilidades de texto: paso a minúsculas (ASCII), recorte de espacios,
//! supresión de puntos iniciales, búsqueda del último carácter y división
//! por un separador. Cada operación ejecutable está especificada contra una
//! función spec sobre `Seq<char>`.

use vstd::prelude::*;

verus! {

/// Carácter en minúscula: las letras ASCII 'A'..'Z' bajan a 'a'..'z',
/// el resto queda igual.
pub open spec fn minuscula_char(c: char) -> char {
    if 65 <= c as u32 && c as u32 <= 90 {
        (((c as u32 + 32) as u8) as char)
    } else {
        c
    }
}

/// Texto en minúsculas, carácter a carácter.
pub open spec fn minusculas(s: Seq<char>) -> Seq<char> {
    s.map_values(|c: char| minuscula_char(c))
}

pub fn minuscula_char_exec(c: char) -> (r: char)
    ensures
        r == minuscula_char(c),
{
    let u = c as u32;
    if 65 <= u && u <= 90 {
        ((u + 32) as u8) as char
    } else {
        c
    }
}

/// Carácter en blanco según el recorte: espacio, tabulador, salto de línea
/// o retorno de carro.
pub open spec fn es_blanco(c: char) -> bool {
    c == ' ' || c == '\t' || c == '\n' || c == '\r'
}

pub fn es_blanco_exec(c: char) -> (r: bool)
    ensures
        r == es_blanco(c),
{
    c == ' ' || c == '\t' || c == '\n' || c == '\r'
}

/// Texto sin los blancos iniciales.
pub open spec fn recortar_inicio(s: Seq<char>) -> Seq<char>
    decreases s.len(),
{
    if s.len() > 0 && es_blanco(s[0]) {
        recortar_inicio(s.drop_first())
    } else {
        s
    }
}

/// Texto sin los blancos finales.
pub open spec fn recortar_fin(s: Seq<char>) -> Seq<char>
    decreases s.len(),
{
    if s.len() > 0 && es_blanco(s.last()) {
        recortar_fin(s.drop_last())
    } else {
        s
    }
}

/// Texto sin blancos iniciales ni finales.
pub open spec fn recortar(s: Seq<char>) -> Seq<char> {
    recortar_fin(recortar_inicio(s))
}

/// Texto sin los puntos iniciales.
pub open spec fn quitar_puntos(s: Seq<char>) -> Seq<char>
    decreases s.len(),
{
    if s.len() > 0 && s[0] == '.' {
        quitar_puntos(s.drop_first())
    } else {
        s
    }
}

/// Un texto que se recorta a sí mismo sigue recortándose a sí mismo al
/// anteponerle un punto: el punto no es un blanco.
pub proof fn lema_recortar_con_punto(t: Seq<char>)
    requires
        recortar(t) == t,
    ensures
        recortar(seq!['.'] + t) == seq!['.'] + t,
{
    let s = seq!['.'] + t;
    assert(s[0] == '.');
    assert(recortar_inicio(s) == s);
    lema_recortar_fin_con_punto(t);
}

proof fn lema_recortar_fin_con_punto(t: Seq<char>)
    requires
        recortar_fin(recortar_inicio(t)) == t,
    ensures
        recortar_fin(seq!['.'] + t) == seq!['.'] + t,
{
    let s = seq!['.'] + t;
    if t.len() == 0 {
        assert(s.len() == 1 && s.last() == '.');
    } else {
        assert(s.last() == t.last());
        lema_recortar_identidad(t);
        assert(!es_blanco(t.last()));
    }
}

/// Si el recorte completo deja el texto igual, el texto no tiene blancos en
/// los extremos.
proof fn lema_recortar_identidad(t: Seq<char>)
    requires
        recortar(t) == t,
        t.len() > 0,
    ensures
        !es_blanco(t[0]),
        !es_blanco(t.last()),
{
    lema_recortar_acota(t);
    if es_blanco(t[0]) {
        assert(recortar_inicio(t) == recortar_inicio(t.drop_first()));
        lema_recortar_inicio_acota(t.drop_first());
        lema_recortar_fin_acota(recortar_inicio(t.drop_first()));
        assert(recortar(t).len() < t.len());
    }
    if es_blanco(t.last()) {
        let ri = recortar_inicio(t);
        lema_recortar_inicio_conserva_fin(t);
        if ri.len() > 0 {
            assert(ri.last() == t.last());
            assert(recortar_fin(ri) == recortar_fin(ri.drop_last()));
            lema_recortar_fin_acota(ri.drop_last());
            assert(recortar(t).len() < t.len());
        } else {
            assert(recortar(t).len() < t.len());
        }
    }
}

proof fn lema_recortar_inicio_acota(t: Seq<char>)
    ensures
        recortar_inicio(t).len() <= t.len(),
    decreases t.len(),
{
    if t.len() > 0 && es_blanco(t[0]) {
        lema_recortar_inicio_acota(t.drop_first());
    }
}

proof fn lema_recortar_fin_acota(t: Seq<char>)
    ensures
        recortar_fin(t).len() <= t.len(),
    decreases t.len(),
{
    if t.len() > 0 && es_blanco(t.last()) {
        lema_recortar_fin_acota(t.drop_last());
    }
}

proof fn lema_recortar_acota(t: Seq<char>)
    ensures
        recortar(t).len() <= t.len(),
{
    lema_recortar_inicio_acota(t);
    lema_recortar_fin_acota(recortar_inicio(t));
}

/// El recorte inicial de un texto no vacío conserva el último carácter si
/// queda algo.
proof fn lema_recortar_inicio_conserva_fin(t: Seq<char>)
    requires
        t.len() > 0,
    ensures
        recortar_inicio(t).len() > 0 ==> recortar_inicio(t).last() == t.last(),
    decreases t.len(),
{
    if es_blanco(t[0]) {
        if t.len() == 1 {
            assert(t.drop_first() =~= Seq::<char>::empty());
            assert(recortar_inicio(t) == recortar_inicio(t.drop_first()));
            assert(recortar_inicio(Seq::<char>::empty()) == Seq::<char>::empty());
        } else {
            lema_recortar_inicio_conserva_fin(t.drop_first());
            assert(t.drop_first().last() == t.last());
        }
    }
}

/// Posición de la última aparición de `c` en `s`, si la hay.
pub open spec fn ultima_posicion(s: Seq<char>, c: char) -> Option<int>
    decreases s.len(),
{
    if s.len() == 0 {
        None
    } else if s.last() == c {
        Some(s.len() - 1)
    } else {
        ultima_posicion(s.drop_last(), c)
    }
}

/// La última posición señala una aparición de `c` sin otras detrás;
/// `None` quiere decir que `c` no aparece.
pub proof fn lema_ultima_posicion(s: Seq<char>, c: char)
    ensures
        match ultima_posicion(s, c) {
            Some(i) => 0 <= i < s.len() && s[i] == c && (forall|j: int|
                i < j < s.len() ==> s[j] != c),
            None => forall|j: int| 0 <= j < s.len() ==> s[j] != c,
        },
    decreases s.len(),
{
    if s.len() > 0 && s.last() != c {
        lema_ultima_posicion(s.drop_last(), c);
        assert(forall|j: int| 0 <= j < s.len() - 1 ==> s[j] == s.drop_last()[j]);
    }
}

/// Posición de la primera aparición de `c` en `s`, si la hay.
pub open spec fn primera_posicion(s: Seq<char>, c: char) -> Option<int>
    decreases s.len(),
{
    if s.len() == 0 {
        None
    } else if s[0] == c {
        Some(0int)
    } else {
        match primera_posicion(s.drop_first(), c) {
            Some(i) => Some(i + 1),
            None => None,
        }
    }
}

/// La primera posición señala una aparición de `c` sin otras delante;
/// `None` quiere decir que `c` no aparece.
pub proof fn lema_primera_posicion(s: Seq<char>, c: char)
    ensures
        match primera_posicion(s, c) {
            Some(i) => 0 <= i < s.len() && s[i] == c && (forall|j: int|
                0 <= j < i ==> s[j] != c),
            None => forall|j: int| 0 <= j < s.len() ==> s[j] != c,
        },
    decreases s.len(),
{
    if s.len() > 0 && s[0] != c {
        lema_primera_posicion(s.drop_first(), c);
        assert(forall|j: int| 1 <= j < s.len() ==> s[j] == s.drop_first()[j - 1]);
    }
}

/// Trozos de `s` separados por `sep`: siempre hay al menos un trozo, y el
/// separador no figura en ninguno.
pub open spec fn dividir(s: Seq<char>, sep: char) -> Seq<Seq<char>>
    decreases s.len(),
    via dividir_termina
{
    match primera_posicion(s, sep) {
        None => seq![s],
        Some(i) => seq![s.take(i)] + dividir(s.skip(i + 1), sep),
    }
}

#[via_fn]
proof fn dividir_termina(s: Seq<char>, sep: char) {
    lema_primera_posicion(s, sep);
}

/// Hay al menos un trozo en toda división.
pub proof fn lema_dividir_no_vacio(s: Seq<char>, sep: char)
    ensures
        dividir(s, sep).len() >= 1,
{
    lema_primera_posicion(s, sep);
}

/// Vistas de una secuencia de cadenas.
pub open spec fn vistas(v: Seq<String>) -> Seq<Seq<char>> {
    v.map_values(|t: String| t@)
}

/// Trozos de `s` separados por `sep`.
pub fn dividir_str(s: &str, sep: char) -> (r: Vec<String>)
    ensures
        vistas(r@) == dividir(s@, sep),
{
    let n = s.unicode_len();
    let mut r: Vec<String> = Vec::new();
    let mut p: usize = 0;
    proof {
        assert(s@.skip(0) =~= s@);
        assert(vistas(r@) =~= Seq::<Seq<char>>::empty());
    }
    loop
        invariant
            n == s@.len(),
            0 <= p <= n,
            dividir(s@, sep) == vistas(r@) + dividir(s@.skip(p as int), sep),
        decreases n - p,
    {
        let resto: Ghost<Seq<char>> = Ghost(s@.skip(p as int));
        let mut i: usize = p;
        while i < n && s.get_char(i) != sep
            invariant
                n == s@.len(),
                0 <= p <= i <= n,
                forall|j: int| p <= j < i ==> s@[j] != sep,
            decreases n - i,
        {
            i = i + 1;
        }
        proof {
            lema_primera_posicion(resto@, sep);
            assert(forall|j: int| 0 <= j < n - p ==> resto@[j] == s@[p + j]);
        }
        if i < n {
            proof {
                assert(resto@[i - p] == sep);
                assert(primera_posicion(resto@, sep) == Some(i - p));
            }
            let trozo = s.substring_char(p, i);
            let viejo: Ghost<Seq<String>> = Ghost(r@);
            r.push(trozo.to_owned());
            proof {
                assert(vistas(r@) =~= vistas(viejo@).push(trozo@));
                assert(trozo@ =~= resto@.take(i - p));
                assert(resto@.skip(i - p + 1) =~= s@.skip(i + 1));
                assert(dividir(resto@, sep) == seq![resto@.take(i - p)] + dividir(
                    s@.skip(i + 1),
                    sep,
                ));
                assert(vistas(viejo@).push(trozo@) + dividir(s@.skip(i + 1), sep) =~= vistas(
                    viejo@,
                ) + (seq![resto@.take(i - p)] + dividir(s@.skip(i + 1), sep)));
            }
            p = i + 1;
        } else {
            proof {
                assert(primera_posicion(resto@, sep) is None);
            }
            let trozo = s.substring_char(p, n);
            let viejo: Ghost<Seq<String>> = Ghost(r@);
            r.push(trozo.to_owned());
            proof {
                assert(trozo@ =~= resto@);
                assert(vistas(r@) =~= vistas(viejo@).push(trozo@));
                assert(dividir(resto@, sep) == seq![resto@]);
                assert(vistas(viejo@).push(trozo@) =~= vistas(viejo@) + seq![resto@]);
            }
            return r;
        }
    }
}

/// Las dos cadenas tienen los mismos caracteres.
pub fn cadenas_iguales(a: &str, b: &str) -> (r: bool)
    ensures
        r == (a@ == b@),
{
    let na = a.unicode_len();
    let nb = b.unicode_len();
    if na != nb {
        return false;
    }
    let mut i: usize = 0;
    while i < na
        invariant
            na == a@.len(),
            na == b@.len(),
            0 <= i <= na,
            forall|j: int| 0 <= j < i ==> a@[j] == b@[j],
        decreases na - i,
    {
        if a.get_char(i) != b.get_char(i) {
            return false;
        }
        i = i + 1;
    }
    proof {
        assert(a@ =~= b@);
    }
    true
}

/// Se apoya en String::push: añade un carácter al final de la cadena.
#[verifier::external_body]
fn empujar_char(s: &mut String, c: char)
    ensures
        final(s)@ == old(s)@.push(c),
{
    s.push(c)
}

/// Copia de `s` en minúsculas.
pub fn minusculas_str(s: &str) -> (r: String)
    ensures
        r@ == minusculas(s@),
{
    let n = s.unicode_len();
    let mut r = String::new();
    let mut i: usize = 0;
    while i < n
        invariant
            n == s@.len(),
            0 <= i <= n,
            r@ == minusculas(s@.take(i as int)),
        decreases n - i,
    {
        let c = s.get_char(i);
        empujar_char(&mut r, minuscula_char_exec(c));
        proof {
            assert(s@.take(i + 1).map_values(|x: char| minuscula_char(x)) =~= s@.take(
                i as int,
            ).map_values(|x: char| minuscula_char(x)).push(minuscula_char(s@[i as int])));
        }
        i = i + 1;
    }
    proof {
        assert(s@.take(n as int) =~= s@);
    }
    r
}

/// Porción de `s` sin blancos iniciales ni finales.
pub fn recortar_str(s: &str) -> (r: &str)
    ensures
        r@ == recortar(s@),
{
    let n = s.unicode_len();
    let mut a: usize = 0;
    proof {
        assert(s@.skip(0) =~= s@);
    }
    while a < n && es_blanco_exec(s.get_char(a))
        invariant
            n == s@.len(),
            0 <= a <= n,
            recortar_inicio(s@) == recortar_inicio(s@.skip(a as int)),
        decreases n - a,
    {
        proof {
            assert(s@.skip(a as int).drop_first() =~= s@.skip(a + 1));
        }
        a = a + 1;
    }
    proof {
        if a < n {
            assert(recortar_inicio(s@.skip(a as int)) == s@.skip(a as int));
        } else {
            assert(s@.skip(a as int) =~= Seq::<char>::empty());
        }
        assert(recortar_inicio(s@) == s@.skip(a as int));
    }
    let mut b: usize = n;
    proof {
        assert(s@.skip(a as int).take(n - a) =~= s@.skip(a as int));
    }
    while b > a && es_blanco_exec(s.get_char(b - 1))
        invariant
            n == s@.len(),
            0 <= a <= b <= n,
            recortar_inicio(s@) == s@.skip(a as int),
            recortar_fin(s@.skip(a as int)) == recortar_fin(s@.skip(a as int).take(b - a)),
        decreases b,
    {
        proof {
            assert(s@.skip(a as int).take(b - a).drop_last() =~= s@.skip(a as int).take(
                b - 1 - a,
            ));
            assert(s@.skip(a as int).take(b - a).last() == s@[b - 1]);
        }
        b = b - 1;
    }
    proof {
        let t = s@.skip(a as int).take(b - a);
        if b > a {
            assert(t.last() == s@[b - 1]);
            assert(recortar_fin(t) == t);
        } else {
            assert(t =~= Seq::<char>::empty());
        }
        assert(recortar(s@) == t);
    }
    let r = s.substring_char(a, b);
    proof {
        assert(r@ =~= s@.skip(a as int).take(b - a));
    }
    r
}

/// Porción de `s` sin los puntos iniciales.
pub fn quitar_puntos_str(s: &str) -> (r: &str)
    ensures
        r@ == quitar_puntos(s@),
{
    let n = s.unicode_len();
    let mut a: usize = 0;
    proof {
        assert(s@.skip(0) =~= s@);
    }
    while a < n && s.get_char(a) == '.'
        invariant
            n == s@.len(),
            0 <= a <= n,
            quitar_puntos(s@) == quitar_puntos(s@.skip(a as int)),
        decreases n - a,
    {
        proof {
            assert(s@.skip(a as int).drop_first() =~= s@.skip(a + 1));
        }
        a = a + 1;
    }
    proof {
        if a < n {
            assert(quitar_puntos(s@.skip(a as int)) == s@.skip(a as int));
        } else {
            assert(s@.skip(a as int) =~= Seq::<char>::empty());
        }
    }
    let r = s.substring_char(a, n);
    proof {
        assert(r@ =~= s@.skip(a as int));
    }
    r
}

/// Posición de la última aparición de `c` en `s`, si la hay.
pub fn ultima_posicion_str(s: &str, c: char) -> (r: Option<usize>)
    ensures
        match r {
            Some(i) => ultima_posicion(s@, c) == Some(i as int),
            None => ultima_posicion(s@, c) is None,
        },
{
    let n = s.unicode_len();
    let mut b: usize = n;
    proof {
        assert(s@.take(n as int) =~= s@);
    }
    while b > 0
        invariant
            n == s@.len(),
            0 <= b <= n,
            ultima_posicion(s@, c) == ultima_posicion(s@.take(b as int), c),
        decreases b,
    {
        proof {
            assert(s@.take(b as int).drop_last() =~= s@.take(b - 1));
            assert(s@.take(b as int).last() == s@[b - 1]);
        }
        if s.get_char(b - 1) == c {
            return Some(b - 1);
        }
        b = b - 1;
    }
    proof {
        assert(s@.take(0) =~= Seq::<char>::empty());
    }
    None
}

} // verus!

