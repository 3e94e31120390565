//! The names of the files in a database directory.

use vstd::prelude::*;

use crate::error::{Error, ErrorView, Result};
use crate::text;

verus! {

// ------------------------------------------------------------------- paths
/// The path of `name` in `dir`.
pub open spec fn path_in(dir: Seq<char>, name: Seq<char>) -> Seq<char> {
    if dir.len() == 0 || dir.last() == '/' {
        dir + name
    } else {
        dir + seq!['/'] + name
    }
}

/// The last part of a path: what stands behind the last slash.
pub open spec fn base_of(path: Seq<char>) -> Seq<char>
    decreases path.len(),
{
    if path.len() == 0 {
        path
    } else if path.last() == '/' {
        Seq::empty()
    } else {
        base_of(path.drop_last()).push(path.last())
    }
}

/// A name without a slash is the last part of its path in any directory.
pub proof fn base_of_path(dir: Seq<char>, name: Seq<char>)
    requires
        forall|i: int| 0 <= i < name.len() ==> #[trigger] name[i] != '/',
    ensures
        base_of(path_in(dir, name)) == name,
    decreases name.len(),
{
    let path = path_in(dir, name);
    if name.len() == 0 {
        if dir.len() > 0 {
            assert(path.last() == '/');
        }
        assert(base_of(path) =~= name);
    } else {
        assert(path.drop_last() =~= path_in(dir, name.drop_last()));
        base_of_path(dir, name.drop_last());
        assert(name.drop_last().push(name.last()) =~= name);
    }
}

/// The path of `name` in `dir`.
pub fn join(dir: &str, name: &str) -> (r: String)
    ensures
        r@ == path_in(dir@, name@),
{
    let n: usize = dir.unicode_len();
    let mut s = text::copy_text(dir);
    if n > 0 && dir.get_char(n - 1) != '/' {
        proof {
            reveal_strlit("/");
        }
        s.append("/");
        assert(s@ =~= dir@ + seq!['/']);
    }
    s.append(name);
    s
}

/// The last part of a path.
pub fn base(path: &str) -> (r: &str)
    ensures
        r@ == base_of(path@),
{
    let n: usize = path.unicode_len();
    let mut from: usize = n;
    proof {
        assert(path@.skip(n as int) =~= Seq::empty());
        assert(path@.take(n as int) =~= path@);
        assert(base_of(path@.take(n as int)) + path@.skip(n as int) =~= base_of(path@));
    }
    while from > 0 && path.get_char(from - 1) != '/'
        invariant
            from <= n == path@.len(),
            base_of(path@) == base_of(path@.take(from as int)) + path@.skip(from as int),
        decreases from,
    {
        proof {
            let shorter = path@.take(from - 1);
            assert(path@.take(from as int).drop_last() =~= shorter);
            assert(base_of(shorter).push(path@[from - 1]) + path@.skip(from as int) =~= base_of(
                shorter,
            ) + path@.skip(from - 1));
        }
        from -= 1;
    }
    let r = path.substring_char(from, n);
    assert(r@ =~= base_of(path@));
    r
}

// ------------------------------------------------------------------ tables
/// The name of the table with this id.
pub open spec fn sst_name(id: u64) -> Seq<char> {
    "sst_"@ + text::padded(id as nat, 10) + ".db"@
}

/// What stands between `prefix` and `suffix`, if the text starts with the one
/// and then ends with the other.
pub open spec fn between(s: Seq<char>, prefix: Seq<char>, suffix: Seq<char>) -> Option<Seq<char>> {
    if s.len() >= prefix.len() + suffix.len() && s.take(prefix.len() as int) == prefix && s.skip(
        s.len() - suffix.len(),
    ) == suffix {
        Some(s.subrange(prefix.len() as int, s.len() - suffix.len()))
    } else {
        None
    }
}

/// The id of the table with this name, if it is the name of one.
pub open spec fn sst_id(name: Seq<char>) -> Option<u64> {
    match between(name, "sst_"@, ".db"@) {
        Some(middle) => text::parsed(middle),
        None => None,
    }
}

/// The id is read back from the name.
pub proof fn sst_name_round_trip(id: u64)
    ensures
        sst_id(sst_name(id)) == Some(id),
{
    let name = sst_name(id);
    let d = text::padded(id as nat, 10);
    assert(name.take("sst_"@.len() as int) =~= "sst_"@);
    assert(name.skip(name.len() - ".db"@.len()) =~= ".db"@);
    assert(name.subrange("sst_"@.len() as int, name.len() - ".db"@.len()) =~= d);
    text::padded_round_trip(id, 10);
}

/// A path ends as the name at its end does.
pub proof fn path_ends_in_name(dir: Seq<char>, name: Seq<char>)
    requires
        name.len() > 0,
    ensures
        path_in(dir, name).len() > 0,
        path_in(dir, name).last() == name.last(),
{
}

/// Two names in one directory have the same path only if they are the same.
pub proof fn paths_differ(dir: Seq<char>, a: Seq<char>, b: Seq<char>)
    requires
        path_in(dir, a) == path_in(dir, b),
    ensures
        a == b,
{
    let front = if dir.len() == 0 || dir.last() == '/' {
        dir
    } else {
        dir + seq!['/']
    };
    assert(path_in(dir, a) =~= front + a);
    assert(path_in(dir, b) =~= front + b);
    assert((front + a).skip(front.len() as int) =~= a);
    assert((front + b).skip(front.len() as int) =~= b);
}

/// Two tables in one directory have the same path only if they have the same id.
pub proof fn table_paths_differ(dir: Seq<char>, a: u64, b: u64)
    ensures
        path_in(dir, sst_name(a)) == path_in(dir, sst_name(b)) ==> a == b,
{
    if path_in(dir, sst_name(a)) == path_in(dir, sst_name(b)) {
        paths_differ(dir, sst_name(a), sst_name(b));
        sst_name_round_trip(a);
        sst_name_round_trip(b);
    }
}

/// A table's path ends in a `b`, and its name is the last part of it.
pub proof fn table_path_ends(dir: Seq<char>, id: u64)
    ensures
        path_in(dir, sst_name(id)).len() > 0,
        path_in(dir, sst_name(id)).last() == 'b',
        base_of(path_in(dir, sst_name(id))) == sst_name(id),
{
    let name = sst_name(id);
    reveal_strlit(".db");
    reveal_strlit("sst_");
    padded_digits(id as nat, 10);
    assert(name.last() == ".db"@[2]);
    path_ends_in_name(dir, name);
    assert forall|i: int| 0 <= i < name.len() implies #[trigger] name[i] != '/' by {
        let d = text::padded(id as nat, 10);
        if i < 4 {
            assert(name[i] == "sst_"@[i]);
        } else if i < 4 + d.len() {
            assert(name[i] == d[i - 4]);
        } else {
            assert(name[i] == ".db"@[i - 4 - d.len()]);
        }
    }
    base_of_path(dir, name);
}

/// A manifest's path ends in a digit.
pub proof fn manifest_path_ends(dir: Seq<char>, generation: u64)
    ensures
        path_in(dir, manifest_name(generation)).len() > 0,
        text::is_digit(path_in(dir, manifest_name(generation)).last()),
{
    let name = manifest_name(generation);
    let d = text::padded(generation as nat, 6);
    padded_digits(generation as nat, 6);
    assert(name.last() == d[d.len() - 1]);
    path_ends_in_name(dir, name);
}

/// The path of the table with this id.
pub fn sst_path(dir: &str, id: u64) -> (r: String)
    ensures
        r@ == path_in(dir@, sst_name(id)),
{
    let mut name = text::joined("sst_", text::padded_decimal(id, 10).as_str());
    name.append(".db");
    join(dir, name.as_str())
}

/// Whether the characters of `s` from `at` on start with `part`.
fn has_part(s: &Vec<char>, at: usize, part: &Vec<char>) -> (r: bool)
    requires
        at + part@.len() <= s@.len(),
    ensures
        r == (s@.subrange(at as int, at + part@.len()) == part@),
{
    let n: usize = part.len();
    let total: usize = s.len();
    let mut i: usize = 0;
    while i < n
        invariant
            i <= n == part@.len(),
            at + n <= total == s@.len(),
            forall|j: int| 0 <= j < i ==> s@[at + j] == part@[j],
        decreases n - i,
    {
        if s[at + i] != part[i] {
            assert(s@.subrange(at as int, at + n)[i as int] != part@[i as int]);
            return false;
        }
        i += 1;
    }
    assert(s@.subrange(at as int, at + n) =~= part@);
    true
}

/// The number between `prefix` and `suffix`, if the text is made like that.
fn number_between(s: &Vec<char>, prefix: &str, suffix: &str) -> (r: Option<u64>)
    ensures
        r == match between(s@, prefix@, suffix@) {
            Some(middle) => text::parsed(middle),
            None => None,
        },
{
    let p = text::chars_of(prefix);
    let q = text::chars_of(suffix);
    let n: usize = s.len();
    if n < p.len() || n - p.len() < q.len() {
        return None;
    }
    proof {
        assert(s@.subrange(0, p@.len() as int) =~= s@.take(p@.len() as int));
        assert(s@.subrange(n - q@.len(), n as int) =~= s@.skip(n - q@.len()));
    }
    if !has_part(s, 0, &p) || !has_part(s, n - q.len(), &q) {
        return None;
    }
    text::parse_u64(vstd::slice::slice_subrange(s.as_slice(), p.len(), n - q.len()))
}

/// The id in a table's file name, if it is one.
pub fn parse_sst_id(name: &str) -> (r: Option<u64>)
    ensures
        r == sst_id(name@),
{
    let s = text::chars_of(name);
    number_between(&s, "sst_", ".db")
}

/// Whether `name` ends with `suffix`.
pub fn ends_with(name: &str, suffix: &str) -> (r: bool)
    ensures
        r == (name@.len() >= suffix@.len() && name@.skip(name@.len() - suffix@.len()) == suffix@),
{
    let s = text::chars_of(name);
    let q = text::chars_of(suffix);
    if s.len() < q.len() {
        return false;
    }
    proof {
        assert(s@.subrange(s@.len() - q@.len(), s@.len() as int) =~= s@.skip(
            s@.len() - q@.len(),
        ));
    }
    has_part(&s, s.len() - q.len(), &q)
}

/// Whether two texts are the same.
pub fn same_text(a: &str, b: &str) -> (r: bool)
    ensures
        r == (a@ == b@),
{
    let s = text::chars_of(a);
    let q = text::chars_of(b);
    if s.len() != q.len() {
        return false;
    }
    assert(s@.subrange(0, s@.len() as int) =~= s@);
    has_part(&s, 0, &q)
}

// --------------------------------------------------------------- manifests
/// The name of the file that says which manifest is the live one.
pub const CURRENT_FILENAME: &'static str = "CURRENT";

/// The name of a manifest generation.
pub open spec fn manifest_name(generation: u64) -> Seq<char> {
    "MANIFEST-"@ + text::padded(generation as nat, 6)
}

/// The path of a manifest generation.
pub fn manifest_path(dir: &str, generation: u64) -> (r: String)
    ensures
        r@ == path_in(dir@, manifest_name(generation)),
{
    let name = text::joined("MANIFEST-", text::padded_decimal(generation, 6).as_str());
    join(dir, name.as_str())
}

/// The text of `CURRENT` when this generation is the live one.
pub open spec fn current_text(generation: u64) -> Seq<char> {
    manifest_name(generation) + "\n"@
}

/// The text to write to `CURRENT` to make this generation the live one.
pub fn current_line(generation: u64) -> (r: String)
    ensures
        r@ == current_text(generation),
{
    let mut s = text::joined("MANIFEST-", text::padded_decimal(generation, 6).as_str());
    s.append("\n");
    s
}

/// Whether a character is white space.
pub open spec fn is_white(c: char) -> bool {
    let n = c as u32;
    ||| 0x9 <= n <= 0xd
    ||| n == 0x20 || n == 0x85 || n == 0xa0 || n == 0x1680
    ||| 0x2000 <= n <= 0x200a
    ||| n == 0x2028 || n == 0x2029 || n == 0x202f || n == 0x205f || n == 0x3000
}

/// The text without the white space at its front.
pub open spec fn trimmed_front(s: Seq<char>) -> Seq<char>
    decreases s.len(),
{
    if s.len() > 0 && is_white(s[0]) {
        trimmed_front(s.drop_first())
    } else {
        s
    }
}

/// The text without the white space at its end.
pub open spec fn trimmed_end(s: Seq<char>) -> Seq<char>
    decreases s.len(),
{
    if s.len() > 0 && is_white(s.last()) {
        trimmed_end(s.drop_last())
    } else {
        s
    }
}

/// A text in quotes, with what cannot be printed escaped.
pub uninterp spec fn quoted(s: Seq<char>) -> Seq<char>;

/// The characters of bytes, with replacement characters where the bytes are not
/// UTF-8.
pub uninterp spec fn utf8_lossy(bytes: Seq<u8>) -> Seq<char>;

/// `<str as Debug>::fmt`: the quoted form depends on the text alone, and is
/// called [`quoted`] in contracts. How characters are escaped is not said.
#[verifier::external_body]
fn quote(s: &str) -> (r: String)
    ensures
        r@ == quoted(s@),
{
    format!("{s:?}")
}

/// `String::from_utf8_lossy`: the text depends on the bytes alone, and is
/// called [`utf8_lossy`] in contracts. Bytes that are UTF-8 come out as the
/// characters that they encode; where replacement characters go in other bytes
/// is not said.
#[verifier::external_body]
fn lossy_text(bytes: &[u8]) -> (r: String)
    ensures
        r@ == utf8_lossy(bytes@),
        vstd::utf8::valid_utf8(bytes@) ==> r@ == vstd::utf8::decode_utf8(bytes@),
{
    String::from_utf8_lossy(bytes).into_owned()
}

/// The generation that the text of `CURRENT` names, or that it names none.
pub open spec fn generation_in(s: Seq<char>) -> core::result::Result<u64, ErrorView> {
    let name = trimmed_end(trimmed_front(s));
    match between(name, "MANIFEST-"@, Seq::empty()) {
        Some(g) => match text::parsed(g) {
            Some(n) => Ok(n),
            None => Err(ErrorView::Corrupt("bad CURRENT contents: "@ + quoted(name))),
        },
        None => Err(ErrorView::Corrupt("bad CURRENT contents: "@ + quoted(name))),
    }
}

/// The generation is read back from `CURRENT`.
pub proof fn current_round_trip(generation: u64)
    ensures
        vstd::utf8::valid_utf8(vstd::utf8::encode_utf8(current_text(generation))),
        vstd::utf8::decode_utf8(vstd::utf8::encode_utf8(current_text(generation)))
            == current_text(generation),
        generation_in(current_text(generation)) == Ok::<u64, ErrorView>(generation),
{
    let s = current_text(generation);
    let name = manifest_name(generation);
    let d = text::padded(generation as nat, 6);
    vstd::utf8::encode_utf8_valid_utf8(s);
    vstd::utf8::encode_utf8_decode_utf8(s);
    reveal_strlit("MANIFEST-");
    reveal_strlit("\n");
    text::padded_round_trip(generation, 6);
    assert(!is_white(s[0]));
    assert(trimmed_front(s) == s);
    assert(s.last() == '\n');
    assert(s.drop_last() =~= name);
    padded_digits(generation as nat, 6);
    assert(name.last() == d.last());
    assert(text::is_digit(d[d.len() - 1]));
    assert(!is_white(name.last()));
    reveal_with_fuel(trimmed_end, 2);
    assert(trimmed_end(s) == name);
    assert(name.take(9) =~= "MANIFEST-"@);
    assert(name.skip(name.len() as int) =~= Seq::<char>::empty());
    assert(name.subrange(9, name.len() as int) =~= d);
}

proof fn padded_digits(n: nat, width: nat)
    ensures
        text::padded(n, width).len() > 0,
        forall|i: int|
            0 <= i < text::padded(n, width).len() ==> text::is_digit(
                #[trigger] text::padded(n, width)[i],
            ),
{
    text::digits_round_trip(n);
    let d = text::digits(n);
    let p = text::padded(n, width);
    assert forall|i: int| 0 <= i < p.len() implies text::is_digit(#[trigger] p[i]) by {
        if d.len() < width && i >= width - d.len() {
            assert(p[i] == d[i - (width - d.len())]);
        }
    }
}

/// Whether a character is white space.
fn white(c: char) -> (r: bool)
    ensures
        r == is_white(c),
{
    let n: u32 = c as u32;
    (0x9 <= n && n <= 0xd) || n == 0x20 || n == 0x85 || n == 0xa0 || n == 0x1680 || (0x2000 <= n
        && n <= 0x200a) || n == 0x2028 || n == 0x2029 || n == 0x202f || n == 0x205f || n == 0x3000
}

/// The generation that the bytes of `CURRENT` name.
pub fn parse_current(bytes: &[u8]) -> (r: Result<u64>)
    ensures
        match generation_in(utf8_lossy(bytes@)) {
            Ok(n) => r is Ok && r->Ok_0 == n,
            Err(e) => r is Err && r->Err_0@ == e,
        },
        vstd::utf8::valid_utf8(bytes@) ==> utf8_lossy(bytes@) == vstd::utf8::decode_utf8(bytes@),
{
    let raw = lossy_text(bytes);
    let s = text::chars_of(raw.as_str());
    let n: usize = s.len();
    let mut from: usize = 0;
    assert(s@.skip(0) =~= s@);
    while from < n && white(s[from])
        invariant
            from <= n == s@.len(),
            trimmed_front(s@.skip(from as int)) == trimmed_front(s@),
        decreases n - from,
    {
        assert(s@.skip(from as int).drop_first() =~= s@.skip(from + 1));
        from += 1;
    }
    let mut to: usize = n;
    let ghost front = s@.skip(from as int);
    proof {
        assert(s@.subrange(from as int, n as int) =~= front);
    }
    while to > from && white(s[to - 1])
        invariant
            from <= to <= n == s@.len(),
            trimmed_end(s@.subrange(from as int, to as int)) == trimmed_end(front),
        decreases to,
    {
        assert(s@.subrange(from as int, to as int).drop_last() =~= s@.subrange(
            from as int,
            to - 1,
        ));
        to -= 1;
    }
    let name = raw.as_str().substring_char(from, to);
    let chars = text::chars_of(name);
    proof {
        reveal_strlit("");
        assert(""@ =~= Seq::<char>::empty());
    }
    match number_between(&chars, "MANIFEST-", "") {
        Some(g) => Ok(g),
        None => Err(Error::Corrupt(text::joined("bad CURRENT contents: ", quote(name).as_str()))),
    }
}

/// A path is the directory, a slash unless the directory is empty or ends in one, and
/// the name.
pub proof fn path_layout(dir: Seq<char>, name: Seq<char>)
    ensures
        dir.len() == 0 ==> path_in(dir, name) == name,
        dir.len() > 0 && dir.last() == '/' ==> path_in(dir, name) == dir + name,
        dir.len() > 0 && dir.last() != '/' ==> path_in(dir, name) == dir + seq!['/'] + name,
{
    if dir.len() == 0 {
        assert(dir + name =~= name);
    }
}

/// The names of tables and manifests: their numbers in decimal, filled up with zeros to
/// ten and to six digits.
pub proof fn names_are_numbered(id: u64)
    ensures
        sst_name(id).len() >= 17,
        sst_name(id).take(4) == "sst_"@,
        sst_name(id).skip(sst_name(id).len() - 3) == ".db"@,
        text::number(sst_name(id).subrange(4, sst_name(id).len() - 3)) == id,
        id < 10_000_000_000 ==> sst_name(id).len() == 17,
        manifest_name(id).len() >= 15,
        manifest_name(id).take(9) == "MANIFEST-"@,
        text::number(manifest_name(id).skip(9)) == id,
        id < 1_000_000 ==> manifest_name(id).len() == 15,
        current_text(id) == manifest_name(id).push('\n'),
{
    reveal_strlit("sst_");
    reveal_strlit(".db");
    reveal_strlit("MANIFEST-");
    reveal_strlit("\n");
    let t = text::padded(id as nat, 10);
    let m = text::padded(id as nat, 6);
    text::padding_is_zeros(id as nat, 10);
    text::padding_is_zeros(id as nat, 6);
    text::padded_stands_for(id as nat, 10);
    text::padded_stands_for(id as nat, 6);
    text::digits_are_few(id as nat, 10);
    text::digits_are_few(id as nat, 6);
    vstd::arithmetic::power::lemma_pow0(10);
    assert(vstd::arithmetic::power::pow(10, 6) == 1_000_000 && vstd::arithmetic::power::pow(10, 10)
        == 10_000_000_000) by {
        reveal_with_fuel(vstd::arithmetic::power::pow, 11);
    }
    assert(sst_name(id).take(4) =~= "sst_"@);
    assert(sst_name(id).skip(sst_name(id).len() - 3) =~= ".db"@);
    assert(sst_name(id).subrange(4, sst_name(id).len() - 3) =~= t);
    assert(manifest_name(id).take(9) =~= "MANIFEST-"@);
    assert(manifest_name(id).skip(9) =~= m);
    assert(current_text(id) =~= manifest_name(id).push('\n'));
}

/// White space around the name in `CURRENT` is ignored: blanks, tabs and line ends.
pub proof fn white_space_is_ignored(before: Seq<char>, generation: u64, after: Seq<char>)
    requires
        forall|i: int|
            0 <= i < before.len() ==> #[trigger] before[i] == ' ' || before[i] == '\t' || before[i]
                == '\n' || before[i] == '\r',
        forall|i: int|
            0 <= i < after.len() ==> #[trigger] after[i] == ' ' || after[i] == '\t' || after[i]
                == '\n' || after[i] == '\r',
    ensures
        generation_in(before + manifest_name(generation) + after) == Ok::<u64, ErrorView>(
            generation,
        ),
{
    let name = manifest_name(generation);
    let d = text::padded(generation as nat, 6);
    reveal_strlit("MANIFEST-");
    padded_digits(generation as nat, 6);
    assert(name[0] == 'M');
    assert(name.last() == d[d.len() - 1]);
    front_is_trimmed(before, name + after);
    assert(before + (name + after) =~= before + name + after);
    assert((name + after)[0] == name[0]);
    end_is_trimmed(name, after);
    text::padded_round_trip(generation, 6);
    assert(name.take(9) =~= "MANIFEST-"@);
    assert(name.skip(name.len() as int) =~= Seq::<char>::empty());
    assert(name.subrange(9, name.len() as int) =~= d);
}

proof fn front_is_trimmed(front: Seq<char>, rest: Seq<char>)
    requires
        forall|i: int| 0 <= i < front.len() ==> is_white(#[trigger] front[i]),
        rest.len() > 0,
        !is_white(rest[0]),
    ensures
        trimmed_front(front + rest) == rest,
    decreases front.len(),
{
    let s = front + rest;
    if front.len() > 0 {
        assert(is_white(front[0]));
        let t = front.drop_first();
        assert forall|i: int| 0 <= i < t.len() implies is_white(#[trigger] t[i]) by {
            assert(t[i] == front[i + 1]);
        }
        front_is_trimmed(t, rest);
        assert(s.drop_first() =~= t + rest);
    } else {
        assert(s =~= rest);
    }
}

proof fn end_is_trimmed(rest: Seq<char>, end: Seq<char>)
    requires
        forall|i: int| 0 <= i < end.len() ==> is_white(#[trigger] end[i]),
        rest.len() > 0,
        !is_white(rest.last()),
    ensures
        trimmed_end(rest + end) == rest,
    decreases end.len(),
{
    let s = rest + end;
    if end.len() > 0 {
        assert(is_white(end[end.len() - 1]));
        let t = end.drop_last();
        assert forall|i: int| 0 <= i < t.len() implies is_white(#[trigger] t[i]) by {
            assert(t[i] == end[i]);
        }
        end_is_trimmed(rest, t);
        assert(s.drop_last() =~= rest + t);
    } else {
        assert(s =~= rest);
    }
}

} // verus!
