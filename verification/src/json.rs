//! The on-disk text format for descriptors, ledgers and the registry: a JSON
//! object codec, serializer and parser verified against one another. The
//! format is canonical: the parser accepts exactly the compact text the
//! serializer emits, and a file that deviates from it is malformed.

use crate::descriptor::{DescriptorView, PackageInfo};
use crate::registry::{deps_view, EntryView, PackageBasicInfo};
use vstd::prelude::*;
use crate::chars::string_of_chars;
use crate::RepoError;
use vstd::string::StrSliceExecFns;

verus! {

/// The remainder of a text after consuming `n` characters; total, so that
/// recursion over remainders always shrinks.
pub open spec fn adv(v: Seq<char>, n: int) -> Seq<char> {
    if n <= 0 {
        v
    } else if n <= v.len() {
        v.skip(n)
    } else {
        Seq::<char>::empty()
    }
}

/// Splitting a consumption in two lands at the same remainder.
pub proof fn lemma_adv_adv(v: Seq<char>, x: int, y: int)
    requires
        0 <= x,
        0 <= y,
    ensures
        adv(adv(v, x), y) == adv(v, x + y),
{
    assert(adv(adv(v, x), y) =~= adv(v, x + y));
}

/// The escape sequence a character serializes to inside a JSON string.
pub open spec fn esc_char(c: char) -> Seq<char> {
    if c == '"' {
        seq!['\\', '"']
    } else if c == '\\' {
        seq!['\\', '\\']
    } else if c == '\n' {
        seq!['\\', 'n']
    } else if c == '\r' {
        seq!['\\', 'r']
    } else if c == '\t' {
        seq!['\\', 't']
    } else {
        seq![c]
    }
}

/// The escaped body of a JSON string.
pub open spec fn esc(s: Seq<char>) -> Seq<char>
    decreases s.len(),
{
    if s.len() == 0 {
        Seq::<char>::empty()
    } else {
        esc_char(s[0]) + esc(s.drop_first())
    }
}

pub proof fn lemma_esc_snoc(s: Seq<char>, c: char)
    ensures
        esc(s.push(c)) == esc(s) + esc_char(c),
    decreases s.len(),
{
    if s.len() == 0 {
        assert(s.push(c).drop_first() =~= Seq::<char>::empty());
        assert(s.push(c)[0] == c);
        assert(esc(s.push(c)) == esc_char(c) + esc(Seq::<char>::empty()));
        assert(esc(Seq::<char>::empty()) =~= Seq::<char>::empty());
        assert(esc(s) =~= Seq::<char>::empty());
        assert(esc_char(c) + Seq::<char>::empty() =~= esc_char(c));
        assert(Seq::<char>::empty() + esc_char(c) =~= esc_char(c));
    } else {
        lemma_esc_snoc(s.drop_first(), c);
        assert(s.push(c).drop_first() =~= s.drop_first().push(c));
        assert(s.push(c)[0] == s[0]);
        assert(esc(s.push(c)) == esc_char(s[0]) + (esc(s.drop_first()) + esc_char(c)));
        assert(esc_char(s[0]) + (esc(s.drop_first()) + esc_char(c)) =~= (esc_char(s[0]) + esc(
            s.drop_first(),
        )) + esc_char(c));
    }
}

/// A serialized JSON string: the escaped body between quotes.
pub open spec fn ser_str(s: Seq<char>) -> Seq<char> {
    seq!['"'] + esc(s) + seq!['"']
}

/// The character an escape code stands for, if it is one this format knows.
pub open spec fn unesc_char(c: char) -> Option<char> {
    if c == '"' {
        Some('"')
    } else if c == '\\' {
        Some('\\')
    } else if c == '/' {
        Some('/')
    } else if c == 'n' {
        Some('\n')
    } else if c == 'r' {
        Some('\r')
    } else if c == 't' {
        Some('\t')
    } else {
        None
    }
}

/// Parses a JSON string body up to and including the closing quote: the
/// unescaped characters and how many input characters were consumed.
pub open spec fn sp_str_body(v: Seq<char>) -> Option<(Seq<char>, int)>
    decreases v.len(),
{
    if v.len() == 0 {
        None
    } else if v[0] == '"' {
        Some((Seq::<char>::empty(), 1))
    } else if v[0] == '\\' {
        if v.len() < 2 {
            None
        } else {
            match unesc_char(v[1]) {
                Some(c) => match sp_str_body(adv(v, 2)) {
                    Some((s, n)) => Some((seq![c] + s, 2 + n)),
                    None => None,
                },
                None => None,
            }
        }
    } else {
        match sp_str_body(adv(v, 1)) {
            Some((s, n)) => Some((seq![v[0]] + s, 1 + n)),
            None => None,
        }
    }
}

pub proof fn lemma_sp_str_body_bounds(v: Seq<char>)
    ensures
        match sp_str_body(v) {
            Some((s, n)) => 1 <= n <= v.len(),
            None => true,
        },
    decreases v.len(),
{
    if v.len() > 0 && v[0] != '"' {
        if v[0] == '\\' {
            if v.len() >= 2 {
                lemma_sp_str_body_bounds(adv(v, 2));
            }
        } else {
            lemma_sp_str_body_bounds(adv(v, 1));
        }
    }
}

/// Parses a serialized JSON string, quotes included.
pub open spec fn sp_str(v: Seq<char>) -> Option<(Seq<char>, int)> {
    if v.len() > 0 && v[0] == '"' {
        match sp_str_body(adv(v, 1)) {
            Some((s, n)) => Some((s, 1 + n)),
            None => None,
        }
    } else {
        None
    }
}

pub proof fn lemma_sp_str_bounds(v: Seq<char>)
    ensures
        match sp_str(v) {
            Some((s, n)) => 2 <= n <= v.len(),
            None => true,
        },
{
    if v.len() > 0 && v[0] == '"' {
        lemma_sp_str_body_bounds(adv(v, 1));
    }
}

/// The parser inverts the serializer on string bodies, whatever follows.
pub proof fn lemma_sp_str_body_of_esc(s: Seq<char>, rest: Seq<char>)
    ensures
        sp_str_body(esc(s) + seq!['"'] + rest) == Some((s, esc(s).len() + 1int)),
    decreases s.len(),
{
    let v = esc(s) + seq!['"'] + rest;
    if s.len() == 0 {
        assert(v[0] == '"');
    } else {
        let c = s[0];
        let tail = esc(s.drop_first()) + seq!['"'] + rest;
        lemma_sp_str_body_of_esc(s.drop_first(), rest);
        if c == '"' || c == '\\' || c == '\n' || c == '\r' || c == '\t' {
            assert(esc_char(c).len() == 2);
            assert(v[0] == '\\');
            assert(unesc_char(v[1]) == Some(c));
            assert(adv(v, 2) =~= tail);
            assert(seq![c] + s.drop_first() =~= s);
        } else {
            assert(esc_char(c) =~= seq![c]);
            assert(v[0] == c);
            assert(v[0] != '"' && v[0] != '\\');
            assert(adv(v, 1) =~= tail);
            assert(seq![c] + s.drop_first() =~= s);
        }
    }
}

/// The parser inverts the serializer on strings, whatever follows.
pub proof fn lemma_sp_str_of_ser(s: Seq<char>, rest: Seq<char>)
    ensures
        sp_str(ser_str(s) + rest) == Some((s, ser_str(s).len() as int)),
{
    let v = ser_str(s) + rest;
    assert(v[0] == '"');
    lemma_sp_str_body_of_esc(s, rest);
    assert(adv(v, 1) =~= esc(s) + seq!['"'] + rest);
}

/// A serialized list of strings, one or more, comma-separated.
pub open spec fn ser_str_list(l: Seq<Seq<char>>) -> Seq<char>
    decreases l.len(),
{
    if l.len() == 0 {
        Seq::<char>::empty()
    } else if l.len() == 1 {
        ser_str(l[0])
    } else {
        ser_str(l[0]) + seq![','] + ser_str_list(l.drop_first())
    }
}

/// A serialized optional dependency list: `null`, or an array of strings.
pub open spec fn ser_deps(d: Option<Seq<Seq<char>>>) -> Seq<char> {
    match d {
        None => seq!['n', 'u', 'l', 'l'],
        Some(l) => seq!['['] + ser_str_list(l) + seq![']'],
    }
}

/// Parses one or more comma-separated strings up to and including the
/// closing bracket.
pub open spec fn sp_str_list(v: Seq<char>) -> Option<(Seq<Seq<char>>, int)>
    decreases v.len(),
{
    match sp_str(v) {
        None => None,
        Some((s, n)) => {
            let v2 = adv(v, n);
            if v2.len() > 0 && v2[0] == ',' {
                match sp_str_list(adv(v2, 1)) {
                    Some((l, m)) => Some((seq![s] + l, n + 1 + m)),
                    None => None,
                }
            } else if v2.len() > 0 && v2[0] == ']' {
                Some((seq![s], n + 1))
            } else {
                None
            }
        },
    }
}

pub proof fn lemma_sp_str_list_bounds(v: Seq<char>)
    ensures
        match sp_str_list(v) {
            Some((l, n)) => 1 <= n <= v.len(),
            None => true,
        },
    decreases v.len(),
{
    lemma_sp_str_bounds(v);
    match sp_str(v) {
        None => {},
        Some((s, n)) => {
            let v2 = adv(v, n);
            if v2.len() > 0 && v2[0] == ',' {
                lemma_sp_str_list_bounds(adv(v2, 1));
            }
        },
    }
}

/// Parses a serialized optional dependency list.
pub open spec fn sp_deps(v: Seq<char>) -> Option<(Option<Seq<Seq<char>>>, int)> {
    if v.len() >= 4 && v[0] == 'n' {
        if v[1] == 'u' && v[2] == 'l' && v[3] == 'l' {
            Some((None, 4))
        } else {
            None
        }
    } else if v.len() >= 2 && v[0] == '[' {
        if v[1] == ']' {
            Some((Some(Seq::<Seq<char>>::empty()), 2))
        } else {
            match sp_str_list(adv(v, 1)) {
                Some((l, m)) => Some((Some(l), 1 + m)),
                None => None,
            }
        }
    } else {
        None
    }
}

pub proof fn lemma_sp_deps_bounds(v: Seq<char>)
    ensures
        match sp_deps(v) {
            Some((d, n)) => 2 <= n <= v.len(),
            None => true,
        },
{
    if v.len() >= 2 && v[0] == '[' && v[1] != ']' {
        lemma_sp_str_list_bounds(adv(v, 1));
    }
}

/// The parser inverts the serializer on string lists, whatever follows.
pub proof fn lemma_sp_str_list_of_ser(l: Seq<Seq<char>>, rest: Seq<char>)
    requires
        l.len() >= 1,
    ensures
        sp_str_list(ser_str_list(l) + seq![']'] + rest) == Some((l, ser_str_list(l).len() + 1int)),
    decreases l.len(),
{
    let v = ser_str_list(l) + seq![']'] + rest;
    if l.len() == 1 {
        lemma_sp_str_of_ser(l[0], seq![']'] + rest);
        assert(v =~= ser_str(l[0]) + (seq![']'] + rest));
        let n = ser_str(l[0]).len() as int;
        assert(adv(v, n) =~= seq![']'] + rest);
        assert(adv(v, n)[0] == ']');
        assert(seq![l[0]] =~= l);
    } else {
        let tail_ser = ser_str_list(l.drop_first()) + seq![']'] + rest;
        lemma_sp_str_of_ser(l[0], seq![','] + tail_ser);
        assert(v =~= ser_str(l[0]) + (seq![','] + tail_ser));
        let n = ser_str(l[0]).len() as int;
        assert(adv(v, n) =~= seq![','] + tail_ser);
        assert(adv(v, n)[0] == ',');
        lemma_sp_str_list_of_ser(l.drop_first(), rest);
        assert(adv(adv(v, n), 1) =~= tail_ser);
        assert(seq![l[0]] + l.drop_first() =~= l);
    }
}

/// The parser inverts the serializer on dependency lists, whatever follows.
pub proof fn lemma_sp_deps_of_ser(d: Option<Seq<Seq<char>>>, rest: Seq<char>)
    ensures
        sp_deps(ser_deps(d) + rest) == Some((d, ser_deps(d).len() as int)),
{
    let v = ser_deps(d) + rest;
    match d {
        None => {
            assert(v[0] == 'n' && v[1] == 'u' && v[2] == 'l' && v[3] == 'l');
        },
        Some(l) => {
            assert(v[0] == '[');
            if l.len() == 0 {
                assert(v[1] == ']');
            } else {
                lemma_sp_str_list_of_ser(l, rest);
                assert(adv(v, 1) =~= ser_str_list(l) + seq![']'] + rest);
                assert(ser_str(l[0])[0] == '"');
                assert(v[1] == '"');
            }
        },
    }
}

/// The serialized key of a url field.
pub open spec fn key_url() -> Seq<char> {
    seq!['"', 'u', 'r', 'l', '"']
}

/// The serialized key of a file-name field.
pub open spec fn key_file_name() -> Seq<char> {
    seq!['"', 'f', 'i', 'l', 'e', '_', 'n', 'a', 'm', 'e', '"']
}

/// The serialized key of a version field.
pub open spec fn key_version() -> Seq<char> {
    seq!['"', 'v', 'e', 'r', 's', 'i', 'o', 'n', '"']
}

/// The serialized key of a hash field.
pub open spec fn key_hash() -> Seq<char> {
    seq!['"', 'h', 'a', 's', 'h', '"']
}

/// The serialized key of a dependencies field.
pub open spec fn key_dependencies() -> Seq<char> {
    seq!['"', 'd', 'e', 'p', 'e', 'n', 'd', 'e', 'n', 'c', 'i', 'e', 's', '"']
}

/// The serialized key of a package-name field.
pub open spec fn key_package_name() -> Seq<char> {
    seq!['"', 'p', 'a', 'c', 'k', 'a', 'g', 'e', '_', 'n', 'a', 'm', 'e', '"']
}

/// The serialized key of a description field.
pub open spec fn key_description() -> Seq<char> {
    seq!['"', 'd', 'e', 's', 'c', 'r', 'i', 'p', 't', 'i', 'o', 'n', '"']
}

/// A serialized string-valued field: the key, a colon, the string.
pub open spec fn ser_field_str(key: Seq<char>, s: Seq<char>) -> Seq<char> {
    key + seq![':'] + ser_str(s)
}

/// A serialized dependencies field: the key, a colon, the list.
pub open spec fn ser_field_deps(key: Seq<char>, d: Option<Seq<Seq<char>>>) -> Seq<char> {
    key + seq![':'] + ser_deps(d)
}

/// Parses a string-valued field under the given key.
pub open spec fn sp_key_str(v: Seq<char>, key: Seq<char>) -> Option<(Seq<char>, int)> {
    if key.len() as int + 1 <= v.len() && v.subrange(0, key.len() as int) == key && v[key.len() as int]
        == ':' {
        match sp_str(adv(v, key.len() as int + 1)) {
            Some((s, n)) => Some((s, key.len() as int + 1 + n)),
            None => None,
        }
    } else {
        None
    }
}

/// Parses a dependencies field under the given key.
pub open spec fn sp_key_deps(v: Seq<char>, key: Seq<char>) -> Option<(Option<Seq<Seq<char>>>, int)> {
    if key.len() as int + 1 <= v.len() && v.subrange(0, key.len() as int) == key && v[key.len() as int]
        == ':' {
        match sp_deps(adv(v, key.len() as int + 1)) {
            Some((d, n)) => Some((d, key.len() as int + 1 + n)),
            None => None,
        }
    } else {
        None
    }
}

pub proof fn lemma_sp_key_str_bounds(v: Seq<char>, key: Seq<char>)
    ensures
        match sp_key_str(v, key) {
            Some((s, n)) => 1 <= n <= v.len(),
            None => true,
        },
{
    if key.len() as int + 1 <= v.len() && v.subrange(0, key.len() as int) == key && v[key.len() as int]
        == ':' {
        lemma_sp_str_bounds(adv(v, key.len() as int + 1));
    }
}

pub proof fn lemma_sp_key_deps_bounds(v: Seq<char>, key: Seq<char>)
    ensures
        match sp_key_deps(v, key) {
            Some((d, n)) => 1 <= n <= v.len(),
            None => true,
        },
{
    if key.len() as int + 1 <= v.len() && v.subrange(0, key.len() as int) == key && v[key.len() as int]
        == ':' {
        lemma_sp_deps_bounds(adv(v, key.len() as int + 1));
    }
}

/// The parser inverts the serializer on string fields, whatever follows.
pub proof fn lemma_sp_key_str_of_ser(key: Seq<char>, s: Seq<char>, rest: Seq<char>)
    ensures
        sp_key_str(ser_field_str(key, s) + rest, key) == Some((
            s,
            ser_field_str(key, s).len() as int,
        )),
{
    let v = ser_field_str(key, s) + rest;
    assert(v.subrange(0, key.len() as int) =~= key);
    assert(v[key.len() as int] == ':');
    assert(adv(v, key.len() as int + 1) =~= ser_str(s) + rest);
    lemma_sp_str_of_ser(s, rest);
}

/// The parser inverts the serializer on dependencies fields, whatever
/// follows.
pub proof fn lemma_sp_key_deps_of_ser(key: Seq<char>, d: Option<Seq<Seq<char>>>, rest: Seq<char>)
    ensures
        sp_key_deps(ser_field_deps(key, d) + rest, key) == Some((
            d,
            ser_field_deps(key, d).len() as int,
        )),
{
    let v = ser_field_deps(key, d) + rest;
    assert(v.subrange(0, key.len() as int) =~= key);
    assert(v[key.len() as int] == ':');
    assert(adv(v, key.len() as int + 1) =~= ser_deps(d) + rest);
    lemma_sp_deps_of_ser(d, rest);
}

/// A serialized registry entry: the five fields in canonical order.
pub open spec fn ser_entry(e: EntryView) -> Seq<char> {
    seq!['{'] + ser_field_str(key_url(), e.url) + seq![','] + ser_field_str(
        key_file_name(),
        e.file_name,
    ) + seq![','] + ser_field_str(key_version(), e.version) + seq![','] + ser_field_str(
        key_hash(),
        e.hash,
    ) + seq![','] + ser_field_deps(key_dependencies(), e.dependencies) + seq!['}']
}

/// Parses a serialized registry entry.
#[verifier::opaque]
pub open spec fn sp_entry(v: Seq<char>) -> Option<(EntryView, int)> {
    if v.len() > 0 && v[0] == '{' {
        sp_entry_url(v)
    } else {
        None
    }
}

/// The entry grammar after the opening brace: the url field first.
pub open spec fn sp_entry_url(v: Seq<char>) -> Option<(EntryView, int)> {
    match sp_key_str(adv(v, 1), key_url()) {
        Some((url, n1)) => sp_entry_file(v, url, 1 + n1),
        None => None,
    }
}

/// ... then a comma and the file-name field.
pub open spec fn sp_entry_file(v: Seq<char>, url: Seq<char>, p: int) -> Option<(EntryView, int)> {
    if adv(v, p).len() > 0 && adv(v, p)[0] == ',' {
        match sp_key_str(adv(v, p + 1), key_file_name()) {
            Some((file_name, n)) => sp_entry_version(v, url, file_name, p + 1 + n),
            None => None,
        }
    } else {
        None
    }
}

/// ... then a comma and the version field.
pub open spec fn sp_entry_version(
    v: Seq<char>,
    url: Seq<char>,
    file_name: Seq<char>,
    p: int,
) -> Option<(EntryView, int)> {
    if adv(v, p).len() > 0 && adv(v, p)[0] == ',' {
        match sp_key_str(adv(v, p + 1), key_version()) {
            Some((version, n)) => sp_entry_hash(v, url, file_name, version, p + 1 + n),
            None => None,
        }
    } else {
        None
    }
}

/// ... then a comma and the hash field.
pub open spec fn sp_entry_hash(
    v: Seq<char>,
    url: Seq<char>,
    file_name: Seq<char>,
    version: Seq<char>,
    p: int,
) -> Option<(EntryView, int)> {
    if adv(v, p).len() > 0 && adv(v, p)[0] == ',' {
        match sp_key_str(adv(v, p + 1), key_hash()) {
            Some((hash, n)) => sp_entry_deps(v, url, file_name, version, hash, p + 1 + n),
            None => None,
        }
    } else {
        None
    }
}

/// ... then a comma and the dependencies field.
pub open spec fn sp_entry_deps(
    v: Seq<char>,
    url: Seq<char>,
    file_name: Seq<char>,
    version: Seq<char>,
    hash: Seq<char>,
    p: int,
) -> Option<(EntryView, int)> {
    if adv(v, p).len() > 0 && adv(v, p)[0] == ',' {
        match sp_key_deps(adv(v, p + 1), key_dependencies()) {
            Some((dependencies, n)) => sp_entry_close(
                v,
                EntryView { url, file_name, version, hash, dependencies },
                p + 1 + n,
            ),
            None => None,
        }
    } else {
        None
    }
}

/// ... and the closing brace.
pub open spec fn sp_entry_close(v: Seq<char>, e: EntryView, p: int) -> Option<(EntryView, int)> {
    if adv(v, p).len() > 0 && adv(v, p)[0] == '}' {
        Some((e, p + 1))
    } else {
        None
    }
}

pub proof fn lemma_sp_entry_bounds(v: Seq<char>)
    ensures
        match sp_entry(v) {
            Some((e, n)) => 1 <= n <= v.len(),
            None => true,
        },
{
    reveal(sp_entry);
    if v.len() > 0 && v[0] == '{' {
        lemma_sp_key_str_bounds(adv(v, 1), key_url());
        match sp_key_str(adv(v, 1), key_url()) {
            None => {},
            Some((url, n1)) => {
                let p1 = 1 + n1;
                lemma_sp_key_str_bounds(adv(v, p1 + 1), key_file_name());
                match sp_key_str(adv(v, p1 + 1), key_file_name()) {
                    None => {},
                    Some((file_name, n2)) => {
                        let p2 = p1 + 1 + n2;
                        lemma_sp_key_str_bounds(adv(v, p2 + 1), key_version());
                        match sp_key_str(adv(v, p2 + 1), key_version()) {
                            None => {},
                            Some((version, n3)) => {
                                let p3 = p2 + 1 + n3;
                                lemma_sp_key_str_bounds(adv(v, p3 + 1), key_hash());
                                match sp_key_str(adv(v, p3 + 1), key_hash()) {
                                    None => {},
                                    Some((hash, n4)) => {
                                        let p4 = p3 + 1 + n4;
                                        lemma_sp_key_deps_bounds(
                                            adv(v, p4 + 1),
                                            key_dependencies(),
                                        );
                                    },
                                }
                            },
                        }
                    },
                }
            },
        }
    }
}

/// Consuming exactly a leading piece leaves what follows it.
pub proof fn lemma_adv_concat(a: Seq<char>, b: Seq<char>)
    ensures
        adv(a + b, a.len() as int) == b,
{
    assert(adv(a + b, a.len() as int) =~= b);
}

/// The parser inverts the serializer on registry entries, whatever follows.
#[verifier::rlimit(100)]
#[verifier::spinoff_prover]
pub proof fn lemma_sp_entry_of_ser(e: EntryView, rest: Seq<char>)
    ensures
        sp_entry(ser_entry(e) + rest) == Some((e, ser_entry(e).len() as int)),
{
    reveal(sp_entry);
    let v = ser_entry(e) + rest;
    let f1 = ser_field_str(key_url(), e.url);
    let f2 = ser_field_str(key_file_name(), e.file_name);
    let f3 = ser_field_str(key_version(), e.version);
    let f4 = ser_field_str(key_hash(), e.hash);
    let f5 = ser_field_deps(key_dependencies(), e.dependencies);
    let t5 = seq!['}'] + rest;
    let s5 = f5 + t5;
    let t4 = seq![','] + s5;
    let s4 = f4 + t4;
    let t3 = seq![','] + s4;
    let s3 = f3 + t3;
    let t2 = seq![','] + s3;
    let s2 = f2 + t2;
    let t1 = seq![','] + s2;
    let s1 = f1 + t1;
    assert(v =~= seq!['{'] + s1);
    assert(v[0] == '{');
    lemma_adv_concat(seq!['{'], s1);
    assert(adv(v, 1) == s1);
    lemma_sp_key_str_of_ser(key_url(), e.url, t1);
    let n1 = f1.len() as int;
    let p1 = 1 + n1;
    lemma_adv_adv(v, 1, n1);
    lemma_adv_concat(f1, t1);
    assert(adv(v, p1) == t1);
    assert(t1[0] == ',');
    lemma_adv_adv(v, p1, 1);
    lemma_adv_concat(seq![','], s2);
    assert(adv(v, p1 + 1) == s2);
    lemma_sp_key_str_of_ser(key_file_name(), e.file_name, t2);
    let n2 = f2.len() as int;
    let p2 = p1 + 1 + n2;
    lemma_adv_adv(v, p1 + 1, n2);
    lemma_adv_concat(f2, t2);
    assert(adv(v, p2) == t2);
    assert(t2[0] == ',');
    lemma_adv_adv(v, p2, 1);
    lemma_adv_concat(seq![','], s3);
    assert(adv(v, p2 + 1) == s3);
    lemma_sp_key_str_of_ser(key_version(), e.version, t3);
    let n3 = f3.len() as int;
    let p3 = p2 + 1 + n3;
    lemma_adv_adv(v, p2 + 1, n3);
    lemma_adv_concat(f3, t3);
    assert(adv(v, p3) == t3);
    assert(t3[0] == ',');
    lemma_adv_adv(v, p3, 1);
    lemma_adv_concat(seq![','], s4);
    assert(adv(v, p3 + 1) == s4);
    lemma_sp_key_str_of_ser(key_hash(), e.hash, t4);
    let n4 = f4.len() as int;
    let p4 = p3 + 1 + n4;
    lemma_adv_adv(v, p3 + 1, n4);
    lemma_adv_concat(f4, t4);
    assert(adv(v, p4) == t4);
    assert(t4[0] == ',');
    lemma_adv_adv(v, p4, 1);
    lemma_adv_concat(seq![','], s5);
    assert(adv(v, p4 + 1) == s5);
    lemma_sp_key_deps_of_ser(key_dependencies(), e.dependencies, t5);
    let n5 = f5.len() as int;
    let p5 = p4 + 1 + n5;
    lemma_adv_adv(v, p4 + 1, n5);
    lemma_adv_concat(f5, t5);
    assert(adv(v, p5) == t5);
    assert(t5[0] == '}');
    assert(ser_entry(e).len() as int == p5 + 1);
    let ev = EntryView {
        url: e.url,
        file_name: e.file_name,
        version: e.version,
        hash: e.hash,
        dependencies: e.dependencies,
    };
    assert(ev == e);
    assert(sp_entry_close(v, ev, p5) == Some((e, p5 + 1)));
    assert(sp_entry_deps(v, e.url, e.file_name, e.version, e.hash, p4) == Some((e, p5 + 1)));
    assert(sp_entry_hash(v, e.url, e.file_name, e.version, p3) == Some((e, p5 + 1)));
    assert(sp_entry_version(v, e.url, e.file_name, p2) == Some((e, p5 + 1)));
    assert(sp_entry_file(v, e.url, p1) == Some((e, p5 + 1)));
    assert(sp_entry_url(v) == Some((e, p5 + 1)));
    assert(sp_entry(v) == Some((e, p5 + 1)));
}

/// A serialized descriptor: the six fields in canonical order.
pub open spec fn ser_descriptor(d: DescriptorView) -> Seq<char> {
    seq!['{'] + ser_field_str(key_package_name(), d.package_name) + seq![','] + ser_field_str(
        key_file_name(),
        d.file_name,
    ) + seq![','] + ser_field_str(key_version(), d.version) + seq![','] + ser_field_str(
        key_description(),
        d.description,
    ) + seq![','] + ser_field_str(key_hash(), d.hash) + seq![','] + ser_field_deps(
        key_dependencies(),
        d.dependencies,
    ) + seq!['}']
}

/// Parses a serialized descriptor.
#[verifier::opaque]
pub open spec fn sp_descriptor(v: Seq<char>) -> Option<(DescriptorView, int)> {
    if v.len() > 0 && v[0] == '{' {
        sp_desc_name(v)
    } else {
        None
    }
}

/// The descriptor grammar after the opening brace: the package name first.
pub open spec fn sp_desc_name(v: Seq<char>) -> Option<(DescriptorView, int)> {
    match sp_key_str(adv(v, 1), key_package_name()) {
        Some((package_name, n)) => sp_desc_file(v, package_name, 1 + n),
        None => None,
    }
}

/// ... then a comma and the file-name field.
pub open spec fn sp_desc_file(v: Seq<char>, package_name: Seq<char>, p: int) -> Option<(
    DescriptorView,
    int,
)> {
    if adv(v, p).len() > 0 && adv(v, p)[0] == ',' {
        match sp_key_str(adv(v, p + 1), key_file_name()) {
            Some((file_name, n)) => sp_desc_version(v, package_name, file_name, p + 1 + n),
            None => None,
        }
    } else {
        None
    }
}

/// ... then a comma and the version field.
pub open spec fn sp_desc_version(
    v: Seq<char>,
    package_name: Seq<char>,
    file_name: Seq<char>,
    p: int,
) -> Option<(DescriptorView, int)> {
    if adv(v, p).len() > 0 && adv(v, p)[0] == ',' {
        match sp_key_str(adv(v, p + 1), key_version()) {
            Some((version, n)) => sp_desc_description(
                v,
                package_name,
                file_name,
                version,
                p + 1 + n,
            ),
            None => None,
        }
    } else {
        None
    }
}

/// ... then a comma and the description field.
pub open spec fn sp_desc_description(
    v: Seq<char>,
    package_name: Seq<char>,
    file_name: Seq<char>,
    version: Seq<char>,
    p: int,
) -> Option<(DescriptorView, int)> {
    if adv(v, p).len() > 0 && adv(v, p)[0] == ',' {
        match sp_key_str(adv(v, p + 1), key_description()) {
            Some((description, n)) => sp_desc_hash(
                v,
                package_name,
                file_name,
                version,
                description,
                p + 1 + n,
            ),
            None => None,
        }
    } else {
        None
    }
}

/// ... then a comma and the hash field.
pub open spec fn sp_desc_hash(
    v: Seq<char>,
    package_name: Seq<char>,
    file_name: Seq<char>,
    version: Seq<char>,
    description: Seq<char>,
    p: int,
) -> Option<(DescriptorView, int)> {
    if adv(v, p).len() > 0 && adv(v, p)[0] == ',' {
        match sp_key_str(adv(v, p + 1), key_hash()) {
            Some((hash, n)) => sp_desc_deps(
                v,
                package_name,
                file_name,
                version,
                description,
                hash,
                p + 1 + n,
            ),
            None => None,
        }
    } else {
        None
    }
}

/// ... then a comma and the dependencies field.
pub open spec fn sp_desc_deps(
    v: Seq<char>,
    package_name: Seq<char>,
    file_name: Seq<char>,
    version: Seq<char>,
    description: Seq<char>,
    hash: Seq<char>,
    p: int,
) -> Option<(DescriptorView, int)> {
    if adv(v, p).len() > 0 && adv(v, p)[0] == ',' {
        match sp_key_deps(adv(v, p + 1), key_dependencies()) {
            Some((dependencies, n)) => sp_desc_close(
                v,
                DescriptorView {
                    package_name,
                    file_name,
                    version,
                    description,
                    hash,
                    dependencies,
                },
                p + 1 + n,
            ),
            None => None,
        }
    } else {
        None
    }
}

/// ... and the closing brace.
pub open spec fn sp_desc_close(v: Seq<char>, d: DescriptorView, p: int) -> Option<(
    DescriptorView,
    int,
)> {
    if adv(v, p).len() > 0 && adv(v, p)[0] == '}' {
        Some((d, p + 1))
    } else {
        None
    }
}

/// The whole-text reading of a descriptor file: the descriptor, when the
/// text is exactly one canonical descriptor.
pub open spec fn descriptor_json_value(v: Seq<char>) -> Option<DescriptorView> {
    match sp_descriptor(v) {
        Some((d, n)) => if n == v.len() {
            Some(d)
        } else {
            None
        },
        None => None,
    }
}

/// The parser inverts the serializer on descriptors, whatever follows.
#[verifier::rlimit(100)]
#[verifier::spinoff_prover]
pub proof fn lemma_sp_descriptor_of_ser(d: DescriptorView, rest: Seq<char>)
    ensures
        sp_descriptor(ser_descriptor(d) + rest) == Some((d, ser_descriptor(d).len() as int)),
{
    reveal(sp_descriptor);
    let v = ser_descriptor(d) + rest;
    let f1 = ser_field_str(key_package_name(), d.package_name);
    let f2 = ser_field_str(key_file_name(), d.file_name);
    let f3 = ser_field_str(key_version(), d.version);
    let f4 = ser_field_str(key_description(), d.description);
    let f5 = ser_field_str(key_hash(), d.hash);
    let f6 = ser_field_deps(key_dependencies(), d.dependencies);
    let t6 = seq!['}'] + rest;
    let s6 = f6 + t6;
    let t5 = seq![','] + s6;
    let s5 = f5 + t5;
    let t4 = seq![','] + s5;
    let s4 = f4 + t4;
    let t3 = seq![','] + s4;
    let s3 = f3 + t3;
    let t2 = seq![','] + s3;
    let s2 = f2 + t2;
    let t1 = seq![','] + s2;
    let s1 = f1 + t1;
    assert(v =~= seq!['{'] + s1);
    assert(v[0] == '{');
    lemma_adv_concat(seq!['{'], s1);
    assert(adv(v, 1) == s1);
    lemma_sp_key_str_of_ser(key_package_name(), d.package_name, t1);
    let n1 = f1.len() as int;
    let p1 = 1 + n1;
    lemma_adv_adv(v, 1, n1);
    lemma_adv_concat(f1, t1);
    assert(adv(v, p1) == t1);
    assert(t1[0] == ',');
    lemma_adv_adv(v, p1, 1);
    lemma_adv_concat(seq![','], s2);
    assert(adv(v, p1 + 1) == s2);
    lemma_sp_key_str_of_ser(key_file_name(), d.file_name, t2);
    let n2 = f2.len() as int;
    let p2 = p1 + 1 + n2;
    lemma_adv_adv(v, p1 + 1, n2);
    lemma_adv_concat(f2, t2);
    assert(adv(v, p2) == t2);
    assert(t2[0] == ',');
    lemma_adv_adv(v, p2, 1);
    lemma_adv_concat(seq![','], s3);
    assert(adv(v, p2 + 1) == s3);
    lemma_sp_key_str_of_ser(key_version(), d.version, t3);
    let n3 = f3.len() as int;
    let p3 = p2 + 1 + n3;
    lemma_adv_adv(v, p2 + 1, n3);
    lemma_adv_concat(f3, t3);
    assert(adv(v, p3) == t3);
    assert(t3[0] == ',');
    lemma_adv_adv(v, p3, 1);
    lemma_adv_concat(seq![','], s4);
    assert(adv(v, p3 + 1) == s4);
    lemma_sp_key_str_of_ser(key_description(), d.description, t4);
    let n4 = f4.len() as int;
    let p4 = p3 + 1 + n4;
    lemma_adv_adv(v, p3 + 1, n4);
    lemma_adv_concat(f4, t4);
    assert(adv(v, p4) == t4);
    assert(t4[0] == ',');
    lemma_adv_adv(v, p4, 1);
    lemma_adv_concat(seq![','], s5);
    assert(adv(v, p4 + 1) == s5);
    lemma_sp_key_str_of_ser(key_hash(), d.hash, t5);
    let n5 = f5.len() as int;
    let p5 = p4 + 1 + n5;
    lemma_adv_adv(v, p4 + 1, n5);
    lemma_adv_concat(f5, t5);
    assert(adv(v, p5) == t5);
    assert(t5[0] == ',');
    lemma_adv_adv(v, p5, 1);
    lemma_adv_concat(seq![','], s6);
    assert(adv(v, p5 + 1) == s6);
    lemma_sp_key_deps_of_ser(key_dependencies(), d.dependencies, t6);
    let n6 = f6.len() as int;
    let p6 = p5 + 1 + n6;
    lemma_adv_adv(v, p5 + 1, n6);
    lemma_adv_concat(f6, t6);
    assert(adv(v, p6) == t6);
    assert(t6[0] == '}');
    assert(ser_descriptor(d).len() as int == p6 + 1);
    let dv = DescriptorView {
        package_name: d.package_name,
        file_name: d.file_name,
        version: d.version,
        description: d.description,
        hash: d.hash,
        dependencies: d.dependencies,
    };
    assert(dv == d);
    assert(sp_desc_close(v, dv, p6) == Some((d, p6 + 1)));
    assert(sp_desc_deps(v, d.package_name, d.file_name, d.version, d.description, d.hash, p5)
        == Some((d, p6 + 1)));
    assert(sp_desc_hash(v, d.package_name, d.file_name, d.version, d.description, p4) == Some((
        d,
        p6 + 1,
    )));
    assert(sp_desc_description(v, d.package_name, d.file_name, d.version, p3) == Some((
        d,
        p6 + 1,
    )));
    assert(sp_desc_version(v, d.package_name, d.file_name, p2) == Some((d, p6 + 1)));
    assert(sp_desc_file(v, d.package_name, p1) == Some((d, p6 + 1)));
    assert(sp_desc_name(v) == Some((d, p6 + 1)));
    assert(sp_descriptor(v) == Some((d, p6 + 1)));
}

/// Descriptor round-trip: the canonical text a descriptor serializes to
/// reads back as exactly that descriptor.
pub proof fn lemma_descriptor_round_trip(d: DescriptorView)
    ensures
        descriptor_json_value(ser_descriptor(d)) == Some(d),
{
    lemma_sp_descriptor_of_ser(d, Seq::<char>::empty());
    assert(ser_descriptor(d) + Seq::<char>::empty() =~= ser_descriptor(d));
}

/// A serialized registry member: the package name, a colon, its entry.
pub open spec fn ser_pair(p: (Seq<char>, EntryView)) -> Seq<char> {
    ser_str(p.0) + seq![':'] + ser_entry(p.1)
}

/// Serialized registry members, one or more, comma-separated.
pub open spec fn ser_pairs(s: Seq<(Seq<char>, EntryView)>) -> Seq<char>
    decreases s.len(),
{
    if s.len() == 0 {
        Seq::<char>::empty()
    } else if s.len() == 1 {
        ser_pair(s[0])
    } else {
        ser_pair(s[0]) + seq![','] + ser_pairs(s.drop_first())
    }
}

/// A serialized registry: its members between braces, in the registry's own
/// order.
pub open spec fn ser_registry(s: Seq<(Seq<char>, EntryView)>) -> Seq<char> {
    if s.len() == 0 {
        seq!['{', '}']
    } else {
        seq!['{'] + ser_pairs(s) + seq!['}']
    }
}

/// The map a member sequence folds into, later pairs winning.
pub open spec fn fold_insert(
    acc: Map<Seq<char>, EntryView>,
    s: Seq<(Seq<char>, EntryView)>,
) -> Map<Seq<char>, EntryView>
    decreases s.len(),
{
    if s.len() == 0 {
        acc
    } else {
        fold_insert(acc.insert(s[0].0, s[0].1), s.drop_first())
    }
}

/// Folding one more pair at the end inserts it last.
pub proof fn lemma_fold_insert_snoc(
    acc: Map<Seq<char>, EntryView>,
    s: Seq<(Seq<char>, EntryView)>,
    k: Seq<char>,
    e: EntryView,
)
    ensures
        fold_insert(acc, s.push((k, e))) == fold_insert(acc, s).insert(k, e),
    decreases s.len(),
{
    if s.len() == 0 {
        assert(s.push((k, e)).drop_first() =~= s);
        assert(s.push((k, e))[0] == (k, e));
        assert(fold_insert(acc, s.push((k, e))) == fold_insert(acc.insert(k, e), s));
        assert(fold_insert(acc.insert(k, e), s) == acc.insert(k, e));
        assert(fold_insert(acc, s) == acc);
    } else {
        lemma_fold_insert_snoc(acc.insert(s[0].0, s[0].1), s.drop_first(), k, e);
        assert(s.push((k, e)).drop_first() =~= s.drop_first().push((k, e)));
        assert(s.push((k, e))[0] == s[0]);
    }
}

/// Parses registry members up to and including the closing brace, folding
/// them onto the accumulated map.
pub open spec fn sp_members(v: Seq<char>, acc: Map<Seq<char>, EntryView>) -> Option<(
    Map<Seq<char>, EntryView>,
    int,
)>
    decreases v.len(),
{
    match sp_str(v) {
        None => None,
        Some((k, n)) => {
            let v2 = adv(v, n);
            if v2.len() > 0 && v2[0] == ':' {
                match sp_entry(adv(v2, 1)) {
                    None => None,
                    Some((e, m)) => {
                        let v3 = adv(adv(v2, 1), m);
                        if v3.len() > 0 && v3[0] == ',' {
                            match sp_members(adv(v3, 1), acc.insert(k, e)) {
                                Some((mm, q)) => Some((mm, n + 1 + m + 1 + q)),
                                None => None,
                            }
                        } else if v3.len() > 0 && v3[0] == '}' {
                            Some((acc.insert(k, e), n + 1 + m + 1))
                        } else {
                            None
                        }
                    },
                }
            } else {
                None
            }
        },
    }
}

/// Parses a serialized registry.
pub open spec fn sp_registry(v: Seq<char>) -> Option<(Map<Seq<char>, EntryView>, int)> {
    if v.len() >= 2 && v[0] == '{' {
        if v[1] == '}' {
            Some((Map::<Seq<char>, EntryView>::empty(), 2))
        } else {
            match sp_members(adv(v, 1), Map::<Seq<char>, EntryView>::empty()) {
                Some((m, q)) => Some((m, 1 + q)),
                None => None,
            }
        }
    } else {
        None
    }
}

/// The whole-text reading of a registry file: the registry map, when the
/// text is exactly one canonical registry.
pub open spec fn registry_json_value(v: Seq<char>) -> Option<Map<Seq<char>, EntryView>> {
    match sp_registry(v) {
        Some((m, n)) => if n == v.len() {
            Some(m)
        } else {
            None
        },
        None => None,
    }
}

/// The parser inverts the serializer on member lists, whatever follows.
#[verifier::rlimit(100)]
#[verifier::spinoff_prover]
pub proof fn lemma_sp_members_of_ser(
    s: Seq<(Seq<char>, EntryView)>,
    acc: Map<Seq<char>, EntryView>,
    rest: Seq<char>,
)
    requires
        s.len() >= 1,
    ensures
        sp_members(ser_pairs(s) + seq!['}'] + rest, acc) == Some((
            fold_insert(acc, s),
            ser_pairs(s).len() + 1int,
        )),
    decreases s.len(),
{
    let v = ser_pairs(s) + seq!['}'] + rest;
    let k = s[0].0;
    let e = s[0].1;
    if s.len() == 1 {
        let t2 = seq!['}'] + rest;
        let s2 = ser_entry(e) + t2;
        let t1 = seq![':'] + s2;
        assert(v =~= ser_str(k) + t1);
        lemma_sp_str_of_ser(k, t1);
        let n = ser_str(k).len() as int;
        lemma_adv_concat(ser_str(k), t1);
        assert(adv(v, n) == t1);
        assert(t1[0] == ':');
        lemma_adv_concat(seq![':'], s2);
        assert(adv(t1, 1) == s2);
        lemma_sp_entry_of_ser(e, t2);
        let m = ser_entry(e).len() as int;
        lemma_adv_concat(ser_entry(e), t2);
        assert(adv(s2, m) == t2);
        assert(t2[0] == '}');
        assert(fold_insert(acc, s) == fold_insert(acc.insert(k, e), s.drop_first()));
        assert(s.drop_first().len() == 0);
        assert(fold_insert(acc, s) == acc.insert(k, e));
        assert(ser_pairs(s).len() + 1int == n + 1 + m + 1);
    } else {
        let tail_pairs = ser_pairs(s.drop_first()) + seq!['}'] + rest;
        let t3 = seq![','] + tail_pairs;
        let s2 = ser_entry(e) + t3;
        let t1 = seq![':'] + s2;
        assert(v =~= ser_str(k) + t1);
        lemma_sp_str_of_ser(k, t1);
        let n = ser_str(k).len() as int;
        lemma_adv_concat(ser_str(k), t1);
        assert(adv(v, n) == t1);
        assert(t1[0] == ':');
        lemma_adv_concat(seq![':'], s2);
        assert(adv(t1, 1) == s2);
        lemma_sp_entry_of_ser(e, t3);
        let m = ser_entry(e).len() as int;
        lemma_adv_concat(ser_entry(e), t3);
        assert(adv(s2, m) == t3);
        assert(t3[0] == ',');
        lemma_adv_concat(seq![','], tail_pairs);
        assert(adv(t3, 1) == tail_pairs);
        lemma_sp_members_of_ser(s.drop_first(), acc.insert(k, e), rest);
        assert(fold_insert(acc, s) == fold_insert(acc.insert(k, e), s.drop_first()));
        assert(ser_pairs(s).len() + 1int == n + 1 + m + 1 + (ser_pairs(s.drop_first()).len()
            + 1int));
    }
}

/// The parser inverts the serializer on whole registries: the canonical text
/// of a member sequence reads back as exactly the map those members fold
/// into.
pub proof fn lemma_sp_registry_of_ser(s: Seq<(Seq<char>, EntryView)>)
    ensures
        registry_json_value(ser_registry(s)) == Some(fold_insert(
            Map::<Seq<char>, EntryView>::empty(),
            s,
        )),
{
    let v = ser_registry(s);
    if s.len() == 0 {
        assert(v[0] == '{' && v[1] == '}');
    } else {
        assert(v =~= seq!['{'] + (ser_pairs(s) + seq!['}'] + Seq::<char>::empty()));
        assert(v[0] == '{');
        lemma_adv_concat(seq!['{'], ser_pairs(s) + seq!['}'] + Seq::<char>::empty());
        assert(adv(v, 1) == ser_pairs(s) + seq!['}'] + Seq::<char>::empty());
        lemma_sp_members_of_ser(s, Map::<Seq<char>, EntryView>::empty(), Seq::<char>::empty());
        assert(ser_pairs(s)[0] == ser_pair(s[0])[0]);
        assert(ser_pair(s[0])[0] == '"');
        assert(v[1] == '"');
        assert(sp_registry(v) == Some((
            fold_insert(Map::<Seq<char>, EntryView>::empty(), s),
            v.len() as int,
        )));
    }
}

/// Appending one more string at the end of a list extends its serialization.
pub proof fn lemma_ser_str_list_snoc(l: Seq<Seq<char>>, x: Seq<char>)
    requires
        l.len() >= 1,
    ensures
        ser_str_list(l.push(x)) == ser_str_list(l) + seq![','] + ser_str(x),
    decreases l.len(),
{
    if l.len() == 1 {
        assert(l.push(x).drop_first() =~= l.drop_first().push(x));
        assert(l.push(x)[0] == l[0]);
        assert(l.drop_first().push(x) =~= seq![x]);
        assert(ser_str_list(seq![x]) == ser_str(x));
        assert(seq![x][0] == x);
    } else {
        lemma_ser_str_list_snoc(l.drop_first(), x);
        assert(l.push(x).drop_first() =~= l.drop_first().push(x));
        assert(l.push(x)[0] == l[0]);
        assert(ser_str(l[0]) + seq![','] + (ser_str_list(l.drop_first()) + seq![','] + ser_str(x))
            =~= (ser_str(l[0]) + seq![','] + ser_str_list(l.drop_first())) + seq![','] + ser_str(
            x,
        ));
    }
}

/// Appending one more member at the end of a list extends its serialization.
pub proof fn lemma_ser_pairs_snoc(s: Seq<(Seq<char>, EntryView)>, p: (Seq<char>, EntryView))
    requires
        s.len() >= 1,
    ensures
        ser_pairs(s.push(p)) == ser_pairs(s) + seq![','] + ser_pair(p),
    decreases s.len(),
{
    if s.len() == 1 {
        assert(s.push(p).drop_first() =~= s.drop_first().push(p));
        assert(s.push(p)[0] == s[0]);
        assert(s.drop_first().push(p) =~= seq![p]);
        assert(ser_pairs(seq![p]) == ser_pair(p));
        assert(seq![p][0] == p);
    } else {
        lemma_ser_pairs_snoc(s.drop_first(), p);
        assert(s.push(p).drop_first() =~= s.drop_first().push(p));
        assert(s.push(p)[0] == s[0]);
        assert(ser_pair(s[0]) + seq![','] + (ser_pairs(s.drop_first()) + seq![','] + ser_pair(p))
            =~= (ser_pair(s[0]) + seq![','] + ser_pairs(s.drop_first())) + seq![','] + ser_pair(
            p,
        ));
    }
}

/// Appends the characters of a serialized string.
pub fn emit_str(out: &mut Vec<char>, s: &str)
    ensures
        final(out)@ == old(out)@ + ser_str(s@),
{
    out.push('"');
    let len = s.unicode_len();
    let mut i: usize = 0;
    while i < len
        invariant
            i <= len,
            len == s@.len(),
            out@ == old(out)@ + seq!['"'] + esc(s@.subrange(0, i as int)),
        decreases len - i,
    {
        let c = s.get_char(i);
        let ghost prefix = s@.subrange(0, i as int);
        proof {
            lemma_esc_snoc(prefix, c);
            assert(prefix.push(c) =~= s@.subrange(0, i as int + 1));
        }
        if c == '"' {
            out.push('\\');
            out.push('"');
        } else if c == '\\' {
            out.push('\\');
            out.push('\\');
        } else if c == '\n' {
            out.push('\\');
            out.push('n');
        } else if c == '\r' {
            out.push('\\');
            out.push('r');
        } else if c == '\t' {
            out.push('\\');
            out.push('t');
        } else {
            out.push(c);
        }
        proof {
            assert(out@ =~= old(out)@ + seq!['"'] + (esc(prefix) + esc_char(c)));
            assert(out@ =~= old(out)@ + seq!['"'] + esc(s@.subrange(0, i as int + 1)));
        }
        i += 1;
    }
    out.push('"');
    proof {
        assert(s@.subrange(0, len as int) =~= s@);
        assert(out@ =~= old(out)@ + ser_str(s@));
    }
}

/// Appends the given characters.
pub fn emit_chars(out: &mut Vec<char>, pat: &Vec<char>)
    ensures
        final(out)@ == old(out)@ + pat@,
{
    let mut i: usize = 0;
    while i < pat.len()
        invariant
            i <= pat@.len(),
            out@ == old(out)@ + pat@.subrange(0, i as int),
        decreases pat@.len() - i,
    {
        out.push(pat[i]);
        proof {
            assert(out@ =~= old(out)@ + pat@.subrange(0, i as int + 1));
        }
        i += 1;
    }
    proof {
        assert(pat@.subrange(0, pat@.len() as int) =~= pat@);
    }
}

/// Appends a serialized dependency list.
pub fn emit_deps(out: &mut Vec<char>, deps: &Option<Vec<String>>)
    ensures
        final(out)@ == old(out)@ + ser_deps(deps_view(*deps)),
{
    match deps {
        None => {
            out.push('n');
            out.push('u');
            out.push('l');
            out.push('l');
            proof {
                assert(out@ =~= old(out)@ + ser_deps(deps_view(*deps)));
            }
        },
        Some(l) => {
            let ghost lviews = l@.map_values(|s: String| s@);
            out.push('[');
            let mut i: usize = 0;
            while i < l.len()
                invariant
                    i <= l@.len(),
                    lviews == l@.map_values(|s: String| s@),
                    out@ == old(out)@ + seq!['['] + ser_str_list(lviews.subrange(0, i as int)),
                decreases l@.len() - i,
            {
                let ghost prefix = lviews.subrange(0, i as int);
                if i > 0 {
                    out.push(',');
                    emit_str(out, l[i].as_str());
                    proof {
                        lemma_ser_str_list_snoc(prefix, lviews[i as int]);
                        assert(prefix.push(lviews[i as int]) =~= lviews.subrange(
                            0,
                            i as int + 1,
                        ));
                        assert(out@ =~= old(out)@ + seq!['['] + (ser_str_list(prefix) + seq![',']
                            + ser_str(lviews[i as int])));
                    }
                } else {
                    emit_str(out, l[i].as_str());
                    proof {
                        assert(prefix.len() == 0);
                        assert(prefix.push(lviews[0]) =~= lviews.subrange(0, 1));
                        assert(ser_str_list(lviews.subrange(0, 1)) == ser_str(lviews[0]));
                        assert(lviews.subrange(0, 1)[0] == lviews[0]);
                        assert(out@ =~= old(out)@ + seq!['['] + ser_str_list(
                            lviews.subrange(0, 1),
                        ));
                    }
                }
                i += 1;
            }
            out.push(']');
            proof {
                assert(lviews.subrange(0, l@.len() as int) =~= lviews);
                assert(out@ =~= old(out)@ + ser_deps(deps_view(*deps)));
            }
        },
    }
}

/// The characters of the url key.
pub fn key_url_vec() -> (r: Vec<char>)
    ensures
        r@ == key_url(),
{
    let mut r: Vec<char> = Vec::new();
    r.push('"');
    r.push('u');
    r.push('r');
    r.push('l');
    r.push('"');
    proof {
        assert(r@ =~= key_url());
    }
    r
}

/// The characters of the file-name key.
pub fn key_file_name_vec() -> (r: Vec<char>)
    ensures
        r@ == key_file_name(),
{
    let mut r: Vec<char> = Vec::new();
    r.push('"');
    r.push('f');
    r.push('i');
    r.push('l');
    r.push('e');
    r.push('_');
    r.push('n');
    r.push('a');
    r.push('m');
    r.push('e');
    r.push('"');
    proof {
        assert(r@ =~= key_file_name());
    }
    r
}

/// The characters of the version key.
pub fn key_version_vec() -> (r: Vec<char>)
    ensures
        r@ == key_version(),
{
    let mut r: Vec<char> = Vec::new();
    r.push('"');
    r.push('v');
    r.push('e');
    r.push('r');
    r.push('s');
    r.push('i');
    r.push('o');
    r.push('n');
    r.push('"');
    proof {
        assert(r@ =~= key_version());
    }
    r
}

/// The characters of the hash key.
pub fn key_hash_vec() -> (r: Vec<char>)
    ensures
        r@ == key_hash(),
{
    let mut r: Vec<char> = Vec::new();
    r.push('"');
    r.push('h');
    r.push('a');
    r.push('s');
    r.push('h');
    r.push('"');
    proof {
        assert(r@ =~= key_hash());
    }
    r
}

/// The characters of the dependencies key.
pub fn key_dependencies_vec() -> (r: Vec<char>)
    ensures
        r@ == key_dependencies(),
{
    let mut r: Vec<char> = Vec::new();
    r.push('"');
    r.push('d');
    r.push('e');
    r.push('p');
    r.push('e');
    r.push('n');
    r.push('d');
    r.push('e');
    r.push('n');
    r.push('c');
    r.push('i');
    r.push('e');
    r.push('s');
    r.push('"');
    proof {
        assert(r@ =~= key_dependencies());
    }
    r
}

/// The characters of the package-name key.
pub fn key_package_name_vec() -> (r: Vec<char>)
    ensures
        r@ == key_package_name(),
{
    let mut r: Vec<char> = Vec::new();
    r.push('"');
    r.push('p');
    r.push('a');
    r.push('c');
    r.push('k');
    r.push('a');
    r.push('g');
    r.push('e');
    r.push('_');
    r.push('n');
    r.push('a');
    r.push('m');
    r.push('e');
    r.push('"');
    proof {
        assert(r@ =~= key_package_name());
    }
    r
}

/// The characters of the description key.
pub fn key_description_vec() -> (r: Vec<char>)
    ensures
        r@ == key_description(),
{
    let mut r: Vec<char> = Vec::new();
    r.push('"');
    r.push('d');
    r.push('e');
    r.push('s');
    r.push('c');
    r.push('r');
    r.push('i');
    r.push('p');
    r.push('t');
    r.push('i');
    r.push('o');
    r.push('n');
    r.push('"');
    proof {
        assert(r@ =~= key_description());
    }
    r
}

/// Appends a serialized registry entry.
#[verifier::rlimit(100)]
pub fn emit_entry(out: &mut Vec<char>, e: &PackageBasicInfo)
    ensures
        final(out)@ == old(out)@ + ser_entry(e@),
{
    out.push('{');
    let k1 = key_url_vec();
    emit_chars(out, &k1);
    out.push(':');
    emit_str(out, e.url.as_str());
    out.push(',');
    let k2 = key_file_name_vec();
    emit_chars(out, &k2);
    out.push(':');
    emit_str(out, e.file_name.as_str());
    out.push(',');
    let k3 = key_version_vec();
    emit_chars(out, &k3);
    out.push(':');
    emit_str(out, e.version.as_str());
    out.push(',');
    let k4 = key_hash_vec();
    emit_chars(out, &k4);
    out.push(':');
    emit_str(out, e.hash.as_str());
    out.push(',');
    let k5 = key_dependencies_vec();
    emit_chars(out, &k5);
    out.push(':');
    emit_deps(out, &e.dependencies);
    out.push('}');
    proof {
        assert(out@ =~= old(out)@ + ser_entry(e@));
    }
}

/// Appends a serialized descriptor.
#[verifier::rlimit(100)]
pub fn emit_descriptor(out: &mut Vec<char>, d: &PackageInfo)
    ensures
        final(out)@ == old(out)@ + ser_descriptor(d@),
{
    out.push('{');
    let k1 = key_package_name_vec();
    emit_chars(out, &k1);
    out.push(':');
    emit_str(out, d.package_name.as_str());
    out.push(',');
    let k2 = key_file_name_vec();
    emit_chars(out, &k2);
    out.push(':');
    emit_str(out, d.file_name.as_str());
    out.push(',');
    let k3 = key_version_vec();
    emit_chars(out, &k3);
    out.push(':');
    emit_str(out, d.version.as_str());
    out.push(',');
    let k4 = key_description_vec();
    emit_chars(out, &k4);
    out.push(':');
    emit_str(out, d.description.as_str());
    out.push(',');
    let k5 = key_hash_vec();
    emit_chars(out, &k5);
    out.push(':');
    emit_str(out, d.hash.as_str());
    out.push(',');
    let k6 = key_dependencies_vec();
    emit_chars(out, &k6);
    out.push(':');
    emit_deps(out, &d.dependencies);
    out.push('}');
    proof {
        assert(out@ =~= old(out)@ + ser_descriptor(d@));
    }
}

/// The canonical text of one package descriptor.
pub fn descriptor_to_json(d: &PackageInfo) -> (out: Vec<char>)
    ensures
        out@ == ser_descriptor(d@),
{
    let mut out: Vec<char> = Vec::new();
    emit_descriptor(&mut out, d);
    out
}

/// Within bounds, consuming from a later position is consuming more from the
/// start.
pub proof fn lemma_skip_adv(v: Seq<char>, p: int, n: int)
    requires
        0 <= p <= v.len(),
        0 <= n <= v.len() - p,
    ensures
        adv(v.skip(p), n) == v.skip(p + n),
{
    assert(adv(v.skip(p), n) =~= v.skip(p + n));
}

/// Reads a serialized string starting at `pos`: the string's characters and
/// the position just past its closing quote, exactly as the string grammar
/// gives them.
pub fn parse_str(v: &Vec<char>, pos: usize) -> (r: Option<(String, usize)>)
    requires
        pos <= v@.len(),
    ensures
        match r {
            Some(p) => pos <= p.1 <= v@.len() && sp_str(v@.skip(pos as int)) == Some((
                p.0@,
                p.1 - pos as int,
            )),
            None => sp_str(v@.skip(pos as int)) is None,
        },
{
    let ghost v0 = v@.skip(pos as int);
    if pos >= v.len() {
        proof {
            assert(v0.len() == 0);
        }
        return None;
    }
    if v[pos] != '"' {
        proof {
            assert(v0[0] == v@[pos as int]);
        }
        return None;
    }
    let ghost b0 = v@.skip(pos as int + 1);
    proof {
        assert(v0[0] == '"');
        lemma_skip_adv(v@, pos as int, 1);
        assert(adv(v0, 1) == b0);
    }
    let mut acc: Vec<char> = Vec::new();
    let mut cur: usize = pos + 1;
    loop
        invariant
            pos + 1 <= cur <= v@.len(),
            pos < v@.len(),
            v0 == v@.skip(pos as int),
            b0 == v@.skip(pos as int + 1),
            v0.len() > 0 && v0[0] == '"',
            adv(v0, 1) == b0,
            sp_str_body(b0) == (match sp_str_body(v@.skip(cur as int)) {
                Some((s, n)) => Some((acc@ + s, (cur - (pos + 1)) as int + n)),
                None => None::<(Seq<char>, int)>,
            }),
        decreases v@.len() - cur,
    {
        let ghost cb = v@.skip(cur as int);
        if cur >= v.len() {
            proof {
                assert(cb.len() == 0);
            }
            return None;
        }
        let c = v[cur];
        proof {
            assert(cb[0] == c);
        }
        if c == '"' {
            proof {
                assert(sp_str_body(cb) == Some((Seq::<char>::empty(), 1int)));
                assert(acc@ + Seq::<char>::empty() =~= acc@);
            }
            let s = string_of_chars(&acc);
            return Some((s, cur + 1));
        } else if c == '\\' {
            if cur + 1 >= v.len() {
                proof {
                    assert(cb.len() < 2);
                }
                return None;
            }
            let e = v[cur + 1];
            proof {
                assert(cb[1] == e);
            }
            let u: char;
            if e == '"' {
                u = '"';
            } else if e == '\\' {
                u = '\\';
            } else if e == '/' {
                u = '/';
            } else if e == 'n' {
                u = '\n';
            } else if e == 'r' {
                u = '\r';
            } else if e == 't' {
                u = '\t';
            } else {
                proof {
                    assert(unesc_char(cb[1]) is None);
                }
                return None;
            }
            proof {
                assert(unesc_char(cb[1]) == Some(u));
                lemma_skip_adv(v@, cur as int, 2);
                assert(adv(cb, 2) == v@.skip(cur as int + 2));
                match sp_str_body(v@.skip(cur as int + 2)) {
                    Some((s, n)) => {
                        assert(acc@ + (seq![u] + s) =~= acc@.push(u) + s);
                    },
                    None => {},
                }
            }
            acc.push(u);
            cur = cur + 2;
        } else {
            proof {
                lemma_skip_adv(v@, cur as int, 1);
                assert(adv(cb, 1) == v@.skip(cur as int + 1));
                match sp_str_body(v@.skip(cur as int + 1)) {
                    Some((s, n)) => {
                        assert(acc@ + (seq![c] + s) =~= acc@.push(c) + s);
                    },
                    None => {},
                }
            }
            acc.push(c);
            cur = cur + 1;
        }
    }
}

/// Reads a serialized dependency list starting at `pos`, exactly as the
/// dependency grammar gives it.
pub fn parse_deps(v: &Vec<char>, pos: usize) -> (r: Option<(Option<Vec<String>>, usize)>)
    requires
        pos <= v@.len(),
    ensures
        match r {
            Some(p) => pos <= p.1 <= v@.len() && sp_deps(v@.skip(pos as int)) == Some((
                deps_view(p.0),
                p.1 - pos as int,
            )),
            None => sp_deps(v@.skip(pos as int)) is None,
        },
{
    let ghost v0 = v@.skip(pos as int);
    if v.len() - pos >= 4 && v[pos] == 'n' {
        proof {
            assert(v0.len() >= 4);
            assert(v0[0] == 'n' && v0[1] == v@[pos + 1] && v0[2] == v@[pos + 2] && v0[3] == v@[pos
                + 3]);
        }
        if v[pos + 1] == 'u' && v[pos + 2] == 'l' && v[pos + 3] == 'l' {
            return Some((None, pos + 4));
        }
        return None;
    }
    if v.len() - pos >= 2 && v[pos] == '[' {
        proof {
            assert(v0.len() >= 2);
            assert(v0[0] == '[' && v0[1] == v@[pos + 1]);
        }
        if v[pos + 1] == ']' {
            let empty: Vec<String> = Vec::new();
            proof {
                assert(deps_view(Some(empty)) == Some(empty@.map_values(|s: String| s@)));
                assert(empty@.map_values(|s: String| s@) =~= Seq::<Seq<char>>::empty());
            }
            return Some((Some(empty), pos + 2));
        }
        let ghost l0 = v@.skip(pos as int + 1);
        proof {
            lemma_skip_adv(v@, pos as int, 1);
            assert(adv(v0, 1) == l0);
        }
        let mut items: Vec<String> = Vec::new();
        let mut cur: usize = pos + 1;
        loop
            invariant
                pos + 1 <= cur <= v@.len(),
                pos + 2 <= v@.len(),
                v0 == v@.skip(pos as int),
                l0 == v@.skip(pos as int + 1),
                v0.len() >= 2 && v0[0] == '[' && v0[1] != ']',
                !(v0.len() >= 4 && v0[0] == 'n'),
                adv(v0, 1) == l0,
                sp_str_list(l0) == (match sp_str_list(v@.skip(cur as int)) {
                    Some((l, n)) => Some((
                        items@.map_values(|s: String| s@) + l,
                        (cur - (pos + 1)) as int + n,
                    )),
                    None => None::<(Seq<Seq<char>>, int)>,
                }),
            decreases v@.len() - cur,
        {
            let ghost cb = v@.skip(cur as int);
            let item = match parse_str(v, cur) {
                Some(p) => p,
                None => {
                    return None;
                },
            };
            let (s, e1) = item;
            proof {
                lemma_sp_str_bounds(cb);
            }
            if e1 >= v.len() {
                proof {
                    lemma_skip_adv(v@, cur as int, e1 - cur as int);
                    assert(adv(cb, e1 - cur as int) == v@.skip(e1 as int));
                    assert(v@.skip(e1 as int).len() == 0);
                }
                return None;
            }
            let sep = v[e1];
            proof {
                lemma_skip_adv(v@, cur as int, e1 - cur as int);
                assert(adv(cb, e1 - cur as int) == v@.skip(e1 as int));
                assert(v@.skip(e1 as int)[0] == sep);
            }
            if sep == ',' {
                proof {
                    lemma_skip_adv(v@, e1 as int, 1);
                    assert(adv(v@.skip(e1 as int), 1) == v@.skip(e1 as int + 1));
                    match sp_str_list(v@.skip(e1 as int + 1)) {
                        Some((l, n)) => {
                            assert(items@.map_values(|q: String| q@) + (seq![s@] + l)
                                =~= items@.push(s).map_values(|q: String| q@) + l);
                        },
                        None => {},
                    }
                }
                items.push(s);
                cur = e1 + 1;
            } else if sep == ']' {
                proof {
                    assert(items@.map_values(|q: String| q@) + seq![s@] =~= items@.push(
                        s,
                    ).map_values(|q: String| q@));
                }
                items.push(s);
                proof {
                    assert(sp_str_list(l0) == Some((
                        items@.map_values(|q: String| q@),
                        (e1 + 1 - (pos + 1)) as int,
                    )));
                    assert(deps_view(Some(items)) == Some(items@.map_values(|q: String| q@)));
                }
                return Some((Some(items), e1 + 1));
            } else {
                return None;
            }
        }
    }
    proof {
        assert(sp_deps(v0) is None);
    }
    None
}

/// Reads a string-valued field under the given key starting at `pos`,
/// exactly as the field grammar gives it.
pub fn parse_key_str(v: &Vec<char>, pos: usize, key: &Vec<char>) -> (r: Option<(String, usize)>)
    requires
        pos <= v@.len(),
    ensures
        match r {
            Some(p) => pos <= p.1 <= v@.len() && sp_key_str(v@.skip(pos as int), key@) == Some((
                p.0@,
                p.1 - pos as int,
            )),
            None => sp_key_str(v@.skip(pos as int), key@) is None,
        },
{
    let ghost v0 = v@.skip(pos as int);
    if v.len() - pos <= key.len() {
        proof {
            assert(!(key@.len() as int + 1 <= v0.len()));
        }
        return None;
    }
    let mut i: usize = 0;
    while i < key.len()
        invariant
            i <= key@.len(),
            pos <= v@.len(),
            v@.len() <= usize::MAX,
            key@.len() < v@.len() - pos,
            v0 == v@.skip(pos as int),
            forall|j: int| 0 <= j < i ==> v0[j] == key@[j],
        decreases key@.len() - i,
    {
        if v[pos + i] != key[i] {
            proof {
                assert(v0[i as int] == v@[pos + i]);
                assert(v0.subrange(0, key@.len() as int)[i as int] != key@[i as int]);
            }
            return None;
        }
        proof {
            assert(v0[i as int] == v@[pos + i]);
        }
        i += 1;
    }
    proof {
        assert(v0.subrange(0, key@.len() as int) =~= key@);
    }
    if v[pos + key.len()] != ':' {
        proof {
            assert(v0[key@.len() as int] == v@[pos + key@.len()]);
        }
        return None;
    }
    proof {
        assert(v0[key@.len() as int] == ':');
        lemma_skip_adv(v@, pos as int, key@.len() as int + 1);
        assert(adv(v0, key@.len() as int + 1) == v@.skip(pos + key@.len() + 1));
    }
    match parse_str(v, pos + key.len() + 1) {
        Some(p) => Some(p),
        None => None,
    }
}

/// Reads a dependencies field under the given key starting at `pos`, exactly
/// as the field grammar gives it.
pub fn parse_key_deps(v: &Vec<char>, pos: usize, key: &Vec<char>) -> (r: Option<(
    Option<Vec<String>>,
    usize,
)>)
    requires
        pos <= v@.len(),
    ensures
        match r {
            Some(p) => pos <= p.1 <= v@.len() && sp_key_deps(v@.skip(pos as int), key@) == Some((
                deps_view(p.0),
                p.1 - pos as int,
            )),
            None => sp_key_deps(v@.skip(pos as int), key@) is None,
        },
{
    let ghost v0 = v@.skip(pos as int);
    if v.len() - pos <= key.len() {
        proof {
            assert(!(key@.len() as int + 1 <= v0.len()));
        }
        return None;
    }
    let mut i: usize = 0;
    while i < key.len()
        invariant
            i <= key@.len(),
            pos <= v@.len(),
            v@.len() <= usize::MAX,
            key@.len() < v@.len() - pos,
            v0 == v@.skip(pos as int),
            forall|j: int| 0 <= j < i ==> v0[j] == key@[j],
        decreases key@.len() - i,
    {
        if v[pos + i] != key[i] {
            proof {
                assert(v0[i as int] == v@[pos + i]);
                assert(v0.subrange(0, key@.len() as int)[i as int] != key@[i as int]);
            }
            return None;
        }
        proof {
            assert(v0[i as int] == v@[pos + i]);
        }
        i += 1;
    }
    proof {
        assert(v0.subrange(0, key@.len() as int) =~= key@);
    }
    if v[pos + key.len()] != ':' {
        proof {
            assert(v0[key@.len() as int] == v@[pos + key@.len()]);
        }
        return None;
    }
    proof {
        assert(v0[key@.len() as int] == ':');
        lemma_skip_adv(v@, pos as int, key@.len() as int + 1);
        assert(adv(v0, key@.len() as int + 1) == v@.skip(pos + key@.len() + 1));
    }
    match parse_deps(v, pos + key.len() + 1) {
        Some(p) => Some(p),
        None => None,
    }
}

/// Reads a serialized registry entry starting at `pos`, exactly as the entry
/// grammar gives it.
#[verifier::rlimit(100)]
#[verifier::spinoff_prover]
pub fn parse_entry(v: &Vec<char>, pos: usize) -> (r: Option<(PackageBasicInfo, usize)>)
    requires
        pos <= v@.len(),
    ensures
        match r {
            Some(p) => pos <= p.1 <= v@.len() && sp_entry(v@.skip(pos as int)) == Some((
                p.0@,
                p.1 - pos as int,
            )),
            None => sp_entry(v@.skip(pos as int)) is None,
        },
{
    proof {
        reveal(sp_entry);
    }
    let ghost v0 = v@.skip(pos as int);
    if pos >= v.len() {
        return None;
    }
    if v[pos] != '{' {
        proof {
            assert(v0[0] == v@[pos as int]);
        }
        return None;
    }
    proof {
        assert(v0[0] == '{');
        lemma_skip_adv(v@, pos as int, 1);
    }
    let k1 = key_url_vec();
    let (url, e1) = match parse_key_str(v, pos + 1, &k1) {
        Some(p) => p,
        None => {
            proof {
                }
            return None;
        },
    };
    proof {
        lemma_skip_adv(v@, pos as int, e1 - pos as int);
    }
    if e1 >= v.len() {
        return None;
    }
    if v[e1] != ',' {
        proof {
            assert(v@.skip(e1 as int)[0] == v@[e1 as int]);
        }
        return None;
    }
    proof {
        assert(v@.skip(e1 as int)[0] == ',');
        lemma_skip_adv(v@, pos as int, e1 + 1 - pos as int);
    }
    let k2 = key_file_name_vec();
    let (file_name, e2) = match parse_key_str(v, e1 + 1, &k2) {
        Some(p) => p,
        None => {
            proof {
                }
            return None;
        },
    };
    proof {
        lemma_skip_adv(v@, pos as int, e2 - pos as int);
    }
    if e2 >= v.len() {
        return None;
    }
    if v[e2] != ',' {
        proof {
            assert(v@.skip(e2 as int)[0] == v@[e2 as int]);
        }
        return None;
    }
    proof {
        assert(v@.skip(e2 as int)[0] == ',');
        lemma_skip_adv(v@, pos as int, e2 + 1 - pos as int);
    }
    let k3 = key_version_vec();
    let (version, e3) = match parse_key_str(v, e2 + 1, &k3) {
        Some(p) => p,
        None => {
            proof {
                }
            return None;
        },
    };
    proof {
        lemma_skip_adv(v@, pos as int, e3 - pos as int);
    }
    if e3 >= v.len() {
        return None;
    }
    if v[e3] != ',' {
        proof {
            assert(v@.skip(e3 as int)[0] == v@[e3 as int]);
        }
        return None;
    }
    proof {
        assert(v@.skip(e3 as int)[0] == ',');
        lemma_skip_adv(v@, pos as int, e3 + 1 - pos as int);
    }
    let k4 = key_hash_vec();
    let (hash, e4) = match parse_key_str(v, e3 + 1, &k4) {
        Some(p) => p,
        None => {
            proof {
                }
            return None;
        },
    };
    proof {
        lemma_skip_adv(v@, pos as int, e4 - pos as int);
    }
    if e4 >= v.len() {
        return None;
    }
    if v[e4] != ',' {
        proof {
            assert(v@.skip(e4 as int)[0] == v@[e4 as int]);
        }
        return None;
    }
    proof {
        assert(v@.skip(e4 as int)[0] == ',');
        lemma_skip_adv(v@, pos as int, e4 + 1 - pos as int);
    }
    let k5 = key_dependencies_vec();
    let (dependencies, e5) = match parse_key_deps(v, e4 + 1, &k5) {
        Some(p) => p,
        None => {
            proof {
                }
            return None;
        },
    };
    proof {
        lemma_skip_adv(v@, pos as int, e5 - pos as int);
    }
    if e5 >= v.len() {
        return None;
    }
    if v[e5] != '}' {
        proof {
            assert(v@.skip(e5 as int)[0] == v@[e5 as int]);
        }
        return None;
    }
    proof {
        assert(v@.skip(e5 as int)[0] == '}');
    }
    let entry = PackageBasicInfo { url, file_name, version, hash, dependencies };
    Some((entry, e5 + 1))
}

/// Reads a serialized descriptor starting at `pos`, exactly as the
/// descriptor grammar gives it.
#[verifier::rlimit(100)]
#[verifier::spinoff_prover]
pub fn parse_descriptor(v: &Vec<char>, pos: usize) -> (r: Option<(PackageInfo, usize)>)
    requires
        pos <= v@.len(),
    ensures
        match r {
            Some(p) => pos <= p.1 <= v@.len() && sp_descriptor(v@.skip(pos as int)) == Some((
                p.0@,
                p.1 - pos as int,
            )),
            None => sp_descriptor(v@.skip(pos as int)) is None,
        },
{
    proof {
        reveal(sp_descriptor);
    }
    let ghost v0 = v@.skip(pos as int);
    if pos >= v.len() {
        return None;
    }
    if v[pos] != '{' {
        proof {
            assert(v0[0] == v@[pos as int]);
        }
        return None;
    }
    proof {
        assert(v0[0] == '{');
        lemma_skip_adv(v@, pos as int, 1);
    }
    let k1 = key_package_name_vec();
    let (package_name, e1) = match parse_key_str(v, pos + 1, &k1) {
        Some(p) => p,
        None => {
            return None;
        },
    };
    proof {
        lemma_skip_adv(v@, pos as int, e1 - pos as int);
    }
    if e1 >= v.len() {
        return None;
    }
    if v[e1] != ',' {
        proof {
            assert(v@.skip(e1 as int)[0] == v@[e1 as int]);
        }
        return None;
    }
    proof {
        assert(v@.skip(e1 as int)[0] == ',');
        lemma_skip_adv(v@, pos as int, e1 + 1 - pos as int);
    }
    let k2 = key_file_name_vec();
    let (file_name, e2) = match parse_key_str(v, e1 + 1, &k2) {
        Some(p) => p,
        None => {
            return None;
        },
    };
    proof {
        lemma_skip_adv(v@, pos as int, e2 - pos as int);
    }
    if e2 >= v.len() {
        return None;
    }
    if v[e2] != ',' {
        proof {
            assert(v@.skip(e2 as int)[0] == v@[e2 as int]);
        }
        return None;
    }
    proof {
        assert(v@.skip(e2 as int)[0] == ',');
        lemma_skip_adv(v@, pos as int, e2 + 1 - pos as int);
    }
    let k3 = key_version_vec();
    let (version, e3) = match parse_key_str(v, e2 + 1, &k3) {
        Some(p) => p,
        None => {
            return None;
        },
    };
    parse_descriptor_tail(v, pos, e3, package_name, file_name, version)
}

/// Reads the back half of a serialized descriptor — description, hash and
/// dependencies — given the fields already read.
#[verifier::rlimit(100)]
#[verifier::spinoff_prover]
fn parse_descriptor_tail(
    v: &Vec<char>,
    start: usize,
    pos: usize,
    package_name: String,
    file_name: String,
    version: String,
) -> (r: Option<(PackageInfo, usize)>)
    requires
        start <= pos <= v@.len(),
    ensures
        match r {
            Some(p) => pos <= p.1 <= v@.len() && sp_desc_description(
                v@.skip(start as int),
                package_name@,
                file_name@,
                version@,
                pos - start as int,
            ) == Some((p.0@, p.1 - start as int)),
            None => sp_desc_description(
                v@.skip(start as int),
                package_name@,
                file_name@,
                version@,
                pos - start as int,
            ) is None,
        },
{
    let ghost v0 = v@.skip(start as int);
    let ghost q: int = pos - start as int;
    proof {
        lemma_skip_adv(v@, start as int, q);
        assert(adv(v0, q) == v@.skip(pos as int));
    }
    if pos >= v.len() {
        return None;
    }
    if v[pos] != ',' {
        proof {
            assert(v@.skip(pos as int)[0] == v@[pos as int]);
        }
        return None;
    }
    proof {
        assert(v@.skip(pos as int)[0] == ',');
        lemma_skip_adv(v@, start as int, q + 1);
    }
    let k4 = key_description_vec();
    let (description, e4) = match parse_key_str(v, pos + 1, &k4) {
        Some(p) => p,
        None => {
            return None;
        },
    };
    proof {
        lemma_skip_adv(v@, start as int, e4 - start as int);
    }
    if e4 >= v.len() {
        return None;
    }
    if v[e4] != ',' {
        proof {
            assert(v@.skip(e4 as int)[0] == v@[e4 as int]);
        }
        return None;
    }
    proof {
        assert(v@.skip(e4 as int)[0] == ',');
        lemma_skip_adv(v@, start as int, e4 + 1 - start as int);
    }
    let k5 = key_hash_vec();
    let (hash, e5) = match parse_key_str(v, e4 + 1, &k5) {
        Some(p) => p,
        None => {
            return None;
        },
    };
    proof {
        lemma_skip_adv(v@, start as int, e5 - start as int);
    }
    if e5 >= v.len() {
        return None;
    }
    if v[e5] != ',' {
        proof {
            assert(v@.skip(e5 as int)[0] == v@[e5 as int]);
        }
        return None;
    }
    proof {
        assert(v@.skip(e5 as int)[0] == ',');
        lemma_skip_adv(v@, start as int, e5 + 1 - start as int);
    }
    let k6 = key_dependencies_vec();
    let (dependencies, e6) = match parse_key_deps(v, e5 + 1, &k6) {
        Some(p) => p,
        None => {
            return None;
        },
    };
    proof {
        lemma_skip_adv(v@, start as int, e6 - start as int);
    }
    if e6 >= v.len() {
        return None;
    }
    if v[e6] != '}' {
        proof {
            assert(v@.skip(e6 as int)[0] == v@[e6 as int]);
        }
        return None;
    }
    proof {
        assert(v@.skip(e6 as int)[0] == '}');
        let dv = DescriptorView {
            package_name: package_name@,
            file_name: file_name@,
            version: version@,
            description: description@,
            hash: hash@,
            dependencies: deps_view(dependencies),
        };
        assert(sp_desc_close(v0, dv, e6 + 1 - start - 1) == Some((dv, e6 + 1 - start as int)));
        assert(sp_desc_deps(
            v0,
            package_name@,
            file_name@,
            version@,
            description@,
            hash@,
            e5 - start as int,
        ) == Some((dv, e6 + 1 - start as int)));
        assert(sp_desc_hash(v0, package_name@, file_name@, version@, description@, e4 - start as int)
            == Some((dv, e6 + 1 - start as int)));
        assert(sp_desc_description(v0, package_name@, file_name@, version@, q) == Some((
            dv,
            e6 + 1 - start as int,
        )));
    }
    let descriptor = PackageInfo {
        package_name,
        file_name,
        version,
        description,
        hash,
        dependencies,
    };
    Some((descriptor, e6 + 1))
}

/// A serialized ledger member: the path, a colon, the digest.
pub open spec fn ser_lpair(p: (Seq<char>, Seq<char>)) -> Seq<char> {
    ser_str(p.0) + seq![':'] + ser_str(p.1)
}

/// Serialized ledger members, one or more, comma-separated.
pub open spec fn ser_lpairs(s: Seq<(Seq<char>, Seq<char>)>) -> Seq<char>
    decreases s.len(),
{
    if s.len() == 0 {
        Seq::<char>::empty()
    } else if s.len() == 1 {
        ser_lpair(s[0])
    } else {
        ser_lpair(s[0]) + seq![','] + ser_lpairs(s.drop_first())
    }
}

/// A serialized ledger: its members between braces, in the ledger's own
/// order.
pub open spec fn ser_ledger(s: Seq<(Seq<char>, Seq<char>)>) -> Seq<char> {
    if s.len() == 0 {
        seq!['{', '}']
    } else {
        seq!['{'] + ser_lpairs(s) + seq!['}']
    }
}

/// Appending one more ledger member at the end extends its serialization.
pub proof fn lemma_ser_lpairs_snoc(s: Seq<(Seq<char>, Seq<char>)>, p: (Seq<char>, Seq<char>))
    requires
        s.len() >= 1,
    ensures
        ser_lpairs(s.push(p)) == ser_lpairs(s) + seq![','] + ser_lpair(p),
    decreases s.len(),
{
    if s.len() == 1 {
        assert(s.push(p).drop_first() =~= s.drop_first().push(p));
        assert(s.push(p)[0] == s[0]);
        assert(s.drop_first().push(p) =~= seq![p]);
        assert(ser_lpairs(seq![p]) == ser_lpair(p));
        assert(seq![p][0] == p);
    } else {
        lemma_ser_lpairs_snoc(s.drop_first(), p);
        assert(s.push(p).drop_first() =~= s.drop_first().push(p));
        assert(s.push(p)[0] == s[0]);
        assert(ser_lpair(s[0]) + seq![','] + (ser_lpairs(s.drop_first()) + seq![','] + ser_lpair(
            p,
        )) =~= (ser_lpair(s[0]) + seq![','] + ser_lpairs(s.drop_first())) + seq![','] + ser_lpair(
            p,
        ));
    }
}

/// Reads a whole descriptor file: the descriptor, exactly when the text is
/// one canonical descriptor; `ParseError` otherwise.
pub fn descriptor_from_json(v: &Vec<char>) -> (r: Result<PackageInfo, RepoError>)
    ensures
        match r {
            Ok(d) => descriptor_json_value(v@) == Some(d@),
            Err(e) => e == RepoError::ParseError && descriptor_json_value(v@) is None,
        },
{
    proof {
        assert(v@.skip(0) =~= v@);
    }
    match parse_descriptor(v, 0) {
        Some(p) => {
            let (d, end) = p;
            if end == v.len() {
                Ok(d)
            } else {
                Err(RepoError::ParseError)
            }
        },
        None => Err(RepoError::ParseError),
    }
}

} // verus!