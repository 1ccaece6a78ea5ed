use vstd::prelude::*;

use crate::config::{FilenameConfig, Profile};
use crate::error::SpoutError;
use crate::text::{
    ascii_lower, ascii_upper, chars_of, contains, contains_seq, equals_literal, occurs_at, push_char,
    string_from_chars, to_ascii_lower, to_ascii_upper,
};

verus! {

/// The largest input accepted, in bytes.
pub const MAX_UPLOAD: u64 = 104857600;

// ---------------------------------------------------------------------------
// Filenames
// ---------------------------------------------------------------------------

/// `s` without its leading dots (`str::trim_start_matches('.')`).
pub open spec fn trim_leading_dots(s: Seq<char>) -> Seq<char>
    decreases s.len(),
{
    if s.len() > 0 && s[0] == '.' {
        trim_leading_dots(s.drop_first())
    } else {
        s
    }
}

/// The offset of the last `.` in `s`, if there is one.
pub open spec fn last_dot(s: Seq<char>) -> Option<int>
    decreases s.len(),
{
    if s.len() == 0 {
        None
    } else if s.last() == '.' {
        Some(s.len() - 1)
    } else {
        last_dot(s.drop_last())
    }
}

/// `name` without its extension: the part before the last dot, unless that
/// part is empty.
pub open spec fn spec_strip_extension(name: Seq<char>) -> Seq<char> {
    match last_dot(name) {
        Some(i) => if i > 0 {
            name.subrange(0, i)
        } else {
            name
        },
        None => name,
    }
}

/// A name given on the command line, with the extension replaced when one is
/// given that is not empty once its leading dots are dropped.
pub open spec fn named_file(name: Seq<char>, ext: Option<Seq<char>>) -> Seq<char> {
    match ext {
        Some(e) => if trim_leading_dots(e).len() > 0 {
            spec_strip_extension(name) + seq!['.'] + trim_leading_dots(e)
        } else {
            name
        },
        None => name,
    }
}

/// The lower-case hexadecimal digit for `d` in `0..16`.
pub open spec fn hex_lower(d: int) -> char {
    if d < 10 {
        ((48 + d) as u8) as char
    } else {
        ((87 + d) as u8) as char
    }
}

/// Lower-case hexadecimal, two digits per byte.
pub open spec fn hex_of(bs: Seq<u8>) -> Seq<char>
    decreases bs.len(),
{
    if bs.len() == 0 {
        Seq::empty()
    } else {
        hex_of(bs.drop_last()) + seq![hex_lower(bs.last() as int / 16), hex_lower(bs.last() as int % 16)]
    }
}

pub proof fn lemma_hex_of_len(bs: Seq<u8>)
    ensures
        hex_of(bs).len() == 2 * bs.len(),
    decreases bs.len(),
{
    if bs.len() > 0 {
        lemma_hex_of_len(bs.drop_last());
    }
}

/// A generated name: the configured prefix, then as many random hexadecimal
/// characters as configured (`ss` if both are empty), a dot, and the
/// extension (the one given, else the configured one, else `png`) without
/// its leading dots.
pub open spec fn generated_file(
    cfg: Option<&FilenameConfig>,
    ext: Option<Seq<char>>,
    random: Seq<u8>,
) -> Seq<char> {
    let prefix = match cfg {
        Some(c) => match c.prefix {
            Some(p) => p@,
            None => Seq::empty(),
        },
        None => Seq::empty(),
    };
    let rand = match cfg {
        Some(c) => match c.random {
            Some(n) => hex_of(random).subrange(0, n as int),
            None => Seq::empty(),
        },
        None => Seq::empty(),
    };
    let stem = if (prefix + rand).len() == 0 {
        seq!['s', 's']
    } else {
        prefix + rand
    };
    let e = match ext {
        Some(e) => e,
        None => match cfg {
            Some(c) => match c.extension {
                Some(x) => x@,
                None => seq!['p', 'n', 'g'],
            },
            None => seq!['p', 'n', 'g'],
        },
    };
    stem + seq!['.'] + trim_leading_dots(e)
}

/// Without a configuration a generated name is `ss`, a dot, and the
/// extension given without its leading dots, or `png` when none is given,
/// whatever the random bytes.
pub proof fn lemma_generated_defaults(ext: Option<Seq<char>>, random: Seq<u8>)
    ensures
        ext is None ==> generated_file(None, ext, random) == seq!['s', 's', '.', 'p', 'n', 'g'],
        ext matches Some(e) ==> generated_file(None, ext, random) == seq!['s', 's', '.']
            + trim_leading_dots(e),
{
    let png = seq!['p', 'n', 'g'];
    assert(trim_leading_dots(png) == png);
    assert(seq!['s', 's'] + seq!['.'] + png =~= seq!['s', 's', '.', 'p', 'n', 'g']);
    assert(seq!['s', 's'] + seq!['.'] =~= seq!['s', 's', '.']);
    assert((Seq::<char>::empty() + Seq::<char>::empty()).len() == 0);
}

/// How many random bytes a configuration asks for.
pub open spec fn random_len(cfg: Option<&FilenameConfig>) -> Option<nat> {
    match cfg {
        Some(c) => match c.random {
            Some(n) => Some(((n as nat) + 1) / 2),
            None => None,
        },
        None => None,
    }
}

pub open spec fn opt_view(o: Option<&str>) -> Option<Seq<char>> {
    match o {
        Some(s) => Some(s@),
        None => None,
    }
}

fn trim_dots_start(v: &[char]) -> (i: usize)
    ensures
        i <= v@.len(),
        v@.subrange(i as int, v@.len() as int) == trim_leading_dots(v@),
{
    let mut i: usize = 0;
    assert(v@.subrange(0, v@.len() as int) =~= v@);
    while i < v.len() && v[i] == '.'
        invariant
            i <= v@.len(),
            trim_leading_dots(v@) == trim_leading_dots(v@.subrange(i as int, v@.len() as int)),
        decreases v@.len() - i,
    {
        assert(v@.subrange(i as int, v@.len() as int).drop_first() =~= v@.subrange(
            i + 1,
            v@.len() as int,
        ));
        i += 1;
    }
    i
}

fn find_last_dot(v: &[char]) -> (r: Option<usize>)
    ensures
        match r {
            Some(i) => last_dot(v@) == Some(i as int) && i < v@.len(),
            None => last_dot(v@) is None,
        },
{
    let mut j: usize = v.len();
    assert(v@.subrange(0, j as int) =~= v@);
    while j > 0
        invariant
            j <= v@.len(),
            last_dot(v@) == last_dot(v@.subrange(0, j as int)),
        decreases j,
    {
        if v[j - 1] == '.' {
            return Some(j - 1);
        }
        assert(v@.subrange(0, j as int).drop_last() =~= v@.subrange(0, j - 1));
        j -= 1;
    }
    None
}

/// `name` without its extension (`str::rsplit_once('.')`, keeping names that
/// start with their only dot).
pub fn strip_extension(name: &str) -> (r: String)
    ensures
        r@ == spec_strip_extension(name@),
{
    let v = chars_of(name);
    match find_last_dot(v.as_slice()) {
        Some(i) => {
            if i > 0 {
                string_from_chars(v.as_slice(), 0, i)
            } else {
                string_from_chars(v.as_slice(), 0, v.len())
            }
        },
        None => string_from_chars(v.as_slice(), 0, v.len()),
    }
}

/// Appends `v[from..to]` to `s`.
fn push_chars(s: &mut String, v: &[char], from: usize, to: usize)
    requires
        from <= to <= v@.len(),
    ensures
        final(s)@ == old(s)@ + v@.subrange(from as int, to as int),
{
    let mut i = from;
    while i < to
        invariant
            from <= i <= to <= v@.len(),
            s@ == old(s)@ + v@.subrange(from as int, i as int),
        decreases to - i,
    {
        push_char(s, v[i]);
        assert(v@.subrange(from as int, i + 1) =~= v@.subrange(from as int, i as int).push(
            v@[i as int],
        ));
        i += 1;
    }
}

proof fn lemma_trim_leading_dots_at(e: Seq<char>, k: int)
    requires
        0 <= k <= e.len(),
        forall|j: int| 0 <= j < k ==> e[j] == '.',
        k == e.len() || e[k] != '.',
    ensures
        trim_leading_dots(e) == e.subrange(k, e.len() as int),
    decreases k,
{
    if k == 0 {
        assert(e.subrange(0, e.len() as int) =~= e);
    } else {
        let t = e.drop_first();
        assert forall|j: int| 0 <= j < k - 1 implies t[j] == '.' by {
            assert(t[j] == e[j + 1]);
        }
        if k < e.len() {
            assert(t[k - 1] == e[k]);
        }
        lemma_trim_leading_dots_at(t, k - 1);
        assert(t.subrange(k - 1, t.len() as int) =~= e.subrange(k, e.len() as int));
    }
}

proof fn lemma_last_dot_is(name: Seq<char>, d: int)
    requires
        0 <= d < name.len(),
        name[d] == '.',
        forall|j: int| d < j < name.len() ==> name[j] != '.',
    ensures
        last_dot(name) == Some(d),
    decreases name.len(),
{
    if d < name.len() - 1 {
        let m = name.drop_last();
        assert forall|j: int| d < j < m.len() implies m[j] != '.' by {
            assert(m[j] == name[j]);
        }
        lemma_last_dot_is(m, d);
    }
}

proof fn lemma_last_dot_none(name: Seq<char>)
    requires
        forall|j: int| 0 <= j < name.len() ==> name[j] != '.',
    ensures
        last_dot(name) is None,
    decreases name.len(),
{
    if name.len() > 0 {
        let m = name.drop_last();
        assert forall|j: int| 0 <= j < m.len() implies m[j] != '.' by {
            assert(m[j] == name[j]);
        }
        lemma_last_dot_none(m);
    }
}

/// A name given with an extension override `e` whose first `k` characters
/// are its leading dots: an extension that is nothing but dots leaves the
/// name as it is; otherwise the result always ends in a dot and `e` without
/// its leading dots, and for a name with no dot at all it is the whole name,
/// that dot and that extension.
pub proof fn lemma_named_file_with_extension(name: Seq<char>, e: Seq<char>, k: int)
    requires
        0 <= k <= e.len(),
        forall|j: int| 0 <= j < k ==> e[j] == '.',
        k == e.len() || e[k] != '.',
    ensures
        k == e.len() ==> named_file(name, Some(e)) == name,
        k < e.len() ==> {
            let r = named_file(name, Some(e));
            &&& r.len() > e.len() - k
            &&& r.subrange(r.len() - (e.len() - k) - 1, r.len() as int) == seq!['.'] + e.subrange(
                k,
                e.len() as int,
            )
        },
        k < e.len() && (forall|j: int| 0 <= j < name.len() ==> name[j] != '.') ==> named_file(
            name,
            Some(e),
        ) == name + seq!['.'] + e.subrange(k, e.len() as int),
{
    lemma_trim_leading_dots_at(e, k);
    if forall|j: int| 0 <= j < name.len() ==> name[j] != '.' {
        lemma_last_dot_none(name);
    }
    if k < e.len() {
        let t = seq!['.'] + e.subrange(k, e.len() as int);
        let r = named_file(name, Some(e));
        assert(r == spec_strip_extension(name) + t);
        assert(r.subrange(r.len() - t.len(), r.len() as int) =~= t);
    }
}

/// A name given with an extension override that is not all dots, where the
/// last dot of the name is at `d`: the extension replaces everything from
/// that dot on, unless the dot is the name's first character, in which case
/// the whole name is kept before the new extension.
pub proof fn lemma_named_file_replaces_extension(name: Seq<char>, d: int, e: Seq<char>, k: int)
    requires
        0 <= d < name.len(),
        name[d] == '.',
        forall|j: int| d < j < name.len() ==> name[j] != '.',
        0 <= k < e.len(),
        forall|j: int| 0 <= j < k ==> e[j] == '.',
        e[k] != '.',
    ensures
        named_file(name, Some(e)) == (if d > 0 {
            name.subrange(0, d)
        } else {
            name
        }) + seq!['.'] + e.subrange(k, e.len() as int),
{
    lemma_trim_leading_dots_at(e, k);
    lemma_last_dot_is(name, d);
}

/// Calls `hex::encode`: lower-case hexadecimal, two digits per byte.
#[verifier::external_body]
fn hex_encode(data: &[u8]) -> (r: String)
    ensures
        r@ == hex_of(data@),
{
    hex::encode(data)
}

#[verifier::external_type_specification]
#[verifier::external_body]
pub struct ExRngError(getrandom::Error);

/// Calls `getrandom::fill`: fills `buf` with random bytes from the system.
/// Only the length is claimed to stay the same.
#[verifier::external_body]
fn fill_random(buf: &mut Vec<u8>) -> (r: Result<(), getrandom::Error>)
    ensures
        final(buf)@.len() == old(buf)@.len(),
{
    getrandom::fill(buf.as_mut_slice())
}

/// Calls `Display` of `getrandom::Error`. Nothing is claimed of the text.
#[verifier::external_body]
fn rng_error_text(e: &getrandom::Error) -> String {
    e.to_string()
}

/// The filename for an upload, given the random bytes to use: the name from
/// the command line if there is one, else a generated one.
pub fn filename_from_random(
    cfg: Option<&FilenameConfig>,
    ext_override: Option<&str>,
    name_override: Option<&str>,
    random: &[u8],
) -> (r: String)
    requires
        name_override is None ==> match random_len(cfg) {
            Some(n) => random@.len() == n,
            None => true,
        },
    ensures
        name_override matches Some(name) ==> r@ == named_file(name@, opt_view(ext_override)),
        name_override is None ==> r@ == generated_file(cfg, opt_view(ext_override), random@),
{
    if let Some(name) = name_override {
        if let Some(ext) = ext_override {
            let e = chars_of(ext);
            let start = trim_dots_start(e.as_slice());
            if start < e.len() {
                let mut out = strip_extension(name);
                push_char(&mut out, '.');
                push_chars(&mut out, e.as_slice(), start, e.len());
                return out;
            }
        }
        return name.to_owned();
    }
    let mut stem = String::new();
    if let Some(c) = cfg {
        if let Some(p) = &c.prefix {
            stem = p.clone();
        }
    }
    let ghost prefix = stem@;
    if let Some(c) = cfg {
        if let Some(n) = c.random {
            let hex = hex_encode(random);
            proof {
                lemma_hex_of_len(random@);
            }
            let hv = chars_of(hex.as_str());
            push_chars(&mut stem, hv.as_slice(), 0, n);
        }
    }
    if stem.as_str().is_empty() {
        stem.append("s");
        stem.append("s");
        proof {
            reveal_strlit("s");
        }
        assert(stem@ =~= seq!['s', 's']);
    }
    let e = match ext_override {
        Some(x) => chars_of(x),
        None => {
            let mut found: Option<Vec<char>> = None;
            if let Some(c) = cfg {
                if let Some(x) = &c.extension {
                    found = Some(chars_of(x.as_str()));
                }
            }
            match found {
                Some(v) => v,
                None => {
                    proof {
                        reveal_strlit("png");
                    }
                    let v = chars_of("png");
                    assert(v@ =~= seq!['p', 'n', 'g']);
                    v
                },
            }
        },
    };
    let start = trim_dots_start(e.as_slice());
    push_char(&mut stem, '.');
    push_chars(&mut stem, e.as_slice(), start, e.len());
    stem
}

/// The filename for an upload: the name from the command line if there is
/// one (with its extension replaced by the one given, if any), else one made
/// from the configured prefix, random hexadecimal characters and extension.
/// Only the random characters depend on the system's random source, which
/// may fail.
pub fn generate_filename(
    cfg: Option<&FilenameConfig>,
    ext_override: Option<&str>,
    name_override: Option<&str>,
) -> (res: Result<String, SpoutError>)
    ensures
        name_override matches Some(name) ==> (res matches Ok(r) && r@ == named_file(
            name@,
            opt_view(ext_override),
        )),
        name_override is None && random_len(cfg) is None ==> (res matches Ok(r) && r@
            == generated_file(cfg, opt_view(ext_override), Seq::empty())),
        name_override is None && random_len(cfg) is Some ==> match res {
            Ok(r) => exists|bytes: Seq<u8>|
                bytes.len() == random_len(cfg)->0 && r@ == generated_file(
                    cfg,
                    opt_view(ext_override),
                    bytes,
                ),
            Err(e) => e is RngError,
        },
{
    if name_override.is_some() {
        return Ok(filename_from_random(cfg, ext_override, name_override, &[]));
    }
    let mut buf: Vec<u8> = Vec::new();
    if let Some(c) = cfg {
        if let Some(n) = c.random {
            let byte_len = n / 2 + n % 2;
            buf = vec![0u8; byte_len];
            if let Err(e) = fill_random(&mut buf) {
                return Err(SpoutError::RngError(rng_error_text(&e)));
            }
        }
    }
    let r = filename_from_random(cfg, ext_override, name_override, buf.as_slice());
    Ok(r)
}

/// The characters that must not occur in a filename.
pub open spec fn forbidden_in_filename(c: char) -> bool {
    c == '/' || c == '\\' || c == '\r' || c == '\n' || c == '\0'
}

/// A filename that could escape its directory or smuggle a path: one with a
/// separator, a line break or NUL, a `..`, or an encoded slash (`%2f`, in
/// any case).
pub open spec fn is_dangerous_filename(name: Seq<char>) -> bool {
    ||| exists|i: int| 0 <= i < name.len() && forbidden_in_filename(#[trigger] name[i])
    ||| contains_seq(name, seq!['.', '.'])
    ||| contains_seq(name.map_values(|c: char| ascii_lower(c)), seq!['%', '2', 'f'])
}

proof fn lemma_ascii_lower_is(c: char, d: char)
    requires
        !('A' <= d && d <= 'Z'),
        !('a' <= d && d <= 'z'),
    ensures
        ascii_lower(c) == d <==> c == d,
{
    if 'A' <= c && c <= 'Z' {
        let l = (((c as u32) + 32) as u8) as char;
        assert((l as u32) == (c as u32) + 32);
    }
}

proof fn lemma_ascii_lower_f(c: char)
    ensures
        ascii_lower(c) == 'f' <==> (c == 'f' || c == 'F'),
{
    if 'A' <= c && c <= 'Z' {
        let l = (((c as u32) + 32) as u8) as char;
        assert((l as u32) == (c as u32) + 32);
    }
}

/// A filename is refused exactly when, at some position, it has `/`, `\`, a
/// carriage return, a line feed or NUL, two dots in a row, or `%2f` in
/// either case (`%2F`).
pub proof fn lemma_dangerous_filename(name: Seq<char>)
    ensures
        is_dangerous_filename(name) <==> exists|i: int|
            0 <= i < name.len() && {
                ||| #[trigger] name[i] == '/'
                ||| name[i] == '\\'
                ||| name[i] == '\r'
                ||| name[i] == '\n'
                ||| name[i] == '\0'
                ||| (i + 1 < name.len() && name[i] == '.' && name[i + 1] == '.')
                ||| (i + 2 < name.len() && name[i] == '%' && name[i + 1] == '2' && (name[i + 2]
                    == 'f' || name[i + 2] == 'F'))
            },
{
    let lower = name.map_values(|c: char| ascii_lower(c));
    if is_dangerous_filename(name) {
        if exists|i: int| 0 <= i < name.len() && forbidden_in_filename(#[trigger] name[i]) {
            let i = choose|i: int| 0 <= i < name.len() && forbidden_in_filename(#[trigger] name[i]);
            assert(name[i] == name[i]);
        } else if contains_seq(name, seq!['.', '.']) {
            let i = choose|i: int| occurs_at(name, seq!['.', '.'], i);
            assert(name.subrange(i, i + 2)[0] == name[i]);
            assert(name.subrange(i, i + 2)[1] == name[i + 1]);
        } else {
            let i = choose|i: int| occurs_at(lower, seq!['%', '2', 'f'], i);
            assert(lower.subrange(i, i + 3)[0] == lower[i]);
            assert(lower.subrange(i, i + 3)[1] == lower[i + 1]);
            assert(lower.subrange(i, i + 3)[2] == lower[i + 2]);
            lemma_ascii_lower_is(name[i], '%');
            lemma_ascii_lower_is(name[i + 1], '2');
            lemma_ascii_lower_f(name[i + 2]);
            assert(name[i] == '%');
        }
    }
    if exists|i: int|
        0 <= i < name.len() && {
            ||| #[trigger] name[i] == '/'
            ||| name[i] == '\\'
            ||| name[i] == '\r'
            ||| name[i] == '\n'
            ||| name[i] == '\0'
            ||| (i + 1 < name.len() && name[i] == '.' && name[i + 1] == '.')
            ||| (i + 2 < name.len() && name[i] == '%' && name[i + 1] == '2' && (name[i + 2] == 'f'
                || name[i + 2] == 'F'))
        } {
        let i = choose|i: int|
            0 <= i < name.len() && {
                ||| #[trigger] name[i] == '/'
                ||| name[i] == '\\'
                ||| name[i] == '\r'
                ||| name[i] == '\n'
                ||| name[i] == '\0'
                ||| (i + 1 < name.len() && name[i] == '.' && name[i + 1] == '.')
                ||| (i + 2 < name.len() && name[i] == '%' && name[i + 1] == '2' && (name[i + 2]
                    == 'f' || name[i + 2] == 'F'))
            };
        if forbidden_in_filename(name[i]) {
        } else if i + 1 < name.len() && name[i] == '.' && name[i + 1] == '.' {
            assert(name.subrange(i, i + 2) =~= seq!['.', '.']);
            assert(occurs_at(name, seq!['.', '.'], i));
        } else {
            lemma_ascii_lower_f(name[i + 2]);
            assert(lower.subrange(i, i + 3) =~= seq!['%', '2', 'f']);
            assert(occurs_at(lower, seq!['%', '2', 'f'], i));
        }
    }
}

/// Refuses a dangerous filename.
pub fn validate_filename(name: &str) -> (res: Result<(), SpoutError>)
    ensures
        !is_dangerous_filename(name@) ==> res is Ok,
        is_dangerous_filename(name@) ==> (res matches Err(SpoutError::DangerousFilename(n)) && n@
            == name@),
{
    let v = chars_of(name);
    let mut bad = false;
    let mut i: usize = 0;
    while i < v.len()
        invariant
            i <= v@.len(),
            bad == exists|j: int| 0 <= j < i && forbidden_in_filename(#[trigger] v@[j]),
        decreases v@.len() - i,
    {
        let c = v[i];
        if c == '/' || c == '\\' || c == '\r' || c == '\n' || c == '\0' {
            bad = true;
        }
        i += 1;
    }
    let dots = vec!['.', '.'];
    let slash = vec!['%', '2', 'f'];
    let lower = to_ascii_lower(v.as_slice());
    if bad || contains(v.as_slice(), dots.as_slice()) || contains(lower.as_slice(), slash.as_slice()) {
        return Err(SpoutError::DangerousFilename(name.to_owned()));
    }
    Ok(())
}

// ---------------------------------------------------------------------------
// Input size
// ---------------------------------------------------------------------------

/// Refuses input over `MAX_UPLOAD` bytes, unless in expert mode.
pub fn check_input_size(buf: Vec<u8>, yolo: bool) -> (res: Result<Vec<u8>, SpoutError>)
    ensures
        (yolo || buf@.len() <= MAX_UPLOAD) ==> (res matches Ok(b) && b@ == buf@),
        (!yolo && buf@.len() > MAX_UPLOAD) ==> res matches Err(SpoutError::InputTooLarge(100)),
        buf@.len() <= 104857600 ==> (res matches Ok(b) && b@ == buf@),
        (!yolo && buf@.len() > 104857600) ==> res is Err,
{
    if !yolo && buf.len() as u64 > MAX_UPLOAD {
        assert(104857600u64 / 1048576u64 == 100) by (nonlinear_arith);
        return Err(SpoutError::InputTooLarge(MAX_UPLOAD / (1024 * 1024)));
    }
    Ok(buf)
}


// ---------------------------------------------------------------------------
// Counting what is read
// ---------------------------------------------------------------------------

/// A source of bytes that adds the number of bytes read to a shared tally.
pub struct CountingReader<R> {
    inner: R,
    tally: std::sync::Arc<std::sync::atomic::AtomicUsize>,
}

impl<R> CountingReader<R> {
    /// The source that is read.
    pub closed spec fn source(&self) -> R {
        self.inner
    }

    /// The tally that reads are added to.
    pub closed spec fn counter(&self) -> std::sync::Arc<std::sync::atomic::AtomicUsize> {
        self.tally
    }

    pub fn new(inner: R, tally: std::sync::Arc<std::sync::atomic::AtomicUsize>) -> (r: Self)
        ensures
            r.source() == inner,
            r.counter() == tally,
    {
        Self { inner, tally }
    }

    /// The source, to read from.
    pub fn inner_mut(&mut self) -> (r: &mut R)
        ensures
            *r == old(self).source(),
            final(self).source() == *final(r),
            final(self).counter() == old(self).counter(),
    {
        &mut self.inner
    }

    /// Adds `n` bytes to the tally.
    pub fn record(&self, n: usize) {
        self.tally.fetch_add(n, std::sync::atomic::Ordering::Relaxed);
    }
}

// ---------------------------------------------------------------------------
// The request to send
// ---------------------------------------------------------------------------

/// The HTTP methods an upload may use.
#[derive(Debug, Clone, Copy, PartialEq, Eq)]
pub enum HttpMethod {
    Post,
    Put,
}

/// How the file is put into the request.
#[derive(Debug)]
pub enum UploadBody {
    /// A multipart form: the file under the profile's field name, with this
    /// content type, beside the profile's extra fields.
    Multipart { mime: String },
    /// The bytes alone as the request body.
    Binary,
}

/// What the upload request is made of, besides the profile's headers.
#[derive(Debug)]
pub struct RequestPlan {
    pub method: HttpMethod,
    pub body: UploadBody,
}

/// The content type `mime_guess` gives for `filename`.
pub uninterp spec fn guessed_mime(filename: Seq<char>) -> Seq<char>;

/// Calls `mime_guess::from_path(..).first_or_octet_stream()`: the content
/// type that the extension of `filename` suggests.
#[verifier::external_body]
fn guess_mime(filename: &str) -> (r: String)
    ensures
        r@ == guessed_mime(filename@),
{
    mime_guess::from_path(filename).first_or_octet_stream().as_ref().to_string()
}

/// The method named by an upper-case name that is `POST` or `PUT`.
pub open spec fn method_named(m: Seq<char>) -> HttpMethod {
    if m == "POST"@ {
        HttpMethod::Post
    } else {
        HttpMethod::Put
    }
}

/// Works out the request for `profile`: the method (case-insensitive) must
/// be POST or PUT, the format `multipart` or `binary`, and a binary upload
/// takes no extra form fields.
pub fn plan_request(profile: &Profile, filename: &str) -> (res: Result<RequestPlan, SpoutError>)
    ensures
        ({
            let m = profile.method@.map_values(|c: char| ascii_upper(c));
            &&& res matches Ok(plan) ==> (plan.method == HttpMethod::Post <==> m == seq!['P', 'O', 'S', 'T'])
                && (plan.method == HttpMethod::Put <==> m == seq!['P', 'U', 'T'])
            &&& if m != "POST"@ && m != "PUT"@ {
                res matches Err(SpoutError::UnsupportedMethod(u)) && u@ == m
            } else if profile.format@ == "multipart"@ {
                res matches Ok(plan) && plan.method == method_named(m) && (plan.body matches UploadBody::Multipart { mime } && mime@ == guessed_mime(
                    filename@,
                ))
            } else if profile.format@ == "binary"@ {
                if profile.fields@.len() > 0 {
                    res matches Err(SpoutError::FieldsInBinaryFormat)
                } else {
                    res matches Ok(plan) && plan.method == method_named(m) && plan.body is Binary
                }
            } else {
                res matches Err(SpoutError::UnsupportedFormat(f)) && f@ == profile.format@
            }
        }),
{
    proof {
        reveal_strlit("POST");
        reveal_strlit("PUT");
        assert("POST"@ =~= seq!['P', 'O', 'S', 'T']);
        assert("PUT"@ =~= seq!['P', 'U', 'T']);
    }
    let raw = chars_of(profile.method.as_str());
    let upper = to_ascii_upper(raw.as_slice());
    let method = if equals_literal(upper.as_slice(), "POST") {
        HttpMethod::Post
    } else if equals_literal(upper.as_slice(), "PUT") {
        HttpMethod::Put
    } else {
        return Err(SpoutError::UnsupportedMethod(string_from_chars(upper.as_slice(), 0, upper.len())));
    };
    let format = chars_of(profile.format.as_str());
    if equals_literal(format.as_slice(), "multipart") {
        let mime = guess_mime(filename);
        Ok(RequestPlan { method, body: UploadBody::Multipart { mime } })
    } else if equals_literal(format.as_slice(), "binary") {
        if profile.fields.len() > 0 {
            return Err(SpoutError::FieldsInBinaryFormat);
        }
        Ok(RequestPlan { method, body: UploadBody::Binary })
    } else {
        Err(SpoutError::UnsupportedFormat(profile.format.clone()))
    }
}

} // verus!
