//! Naming of zone files in a filesystem store.

use std::collections::hash_map::DefaultHasher;
use std::hash::Hasher;

use vstd::prelude::*;
use vstd::std_specs::hash::DefaultHasherAdditionalSpecFns;
use vstd::string::*;
use vstd::utf8::encode_utf8;

use crate::path::Path;
use crate::text::{digits, format_number, push_char};

verus! {

/// Most bytes of the readable part of a zone file name.
pub const MAX_NAME_BYTES: u64 = 80;

/// Components joined with `.`.
pub open spec fn dotted(p: Seq<Seq<char>>) -> Seq<char>
    decreases p.len(),
{
    if p.len() == 0 {
        Seq::empty()
    } else if p.len() == 1 {
        p[0]
    } else {
        dotted(p.drop_last()) + seq!['.'] + p.last()
    }
}

/// Bytes that `c` takes in UTF-8.
pub open spec fn char_width(c: char) -> nat {
    let u = c as u32;
    if u < 0x80 {
        1
    } else if u < 0x800 {
        2
    } else if u < 0x10000 {
        3
    } else {
        4
    }
}

/// Bytes that `s` takes in UTF-8.
pub open spec fn utf8_width(s: Seq<char>) -> nat
    decreases s.len(),
{
    if s.len() == 0 {
        0
    } else {
        char_width(s[0]) + utf8_width(s.drop_first())
    }
}

/// Number of leading characters of `s` that fit in `n` bytes.
pub open spec fn chars_within(s: Seq<char>, n: nat) -> nat
    decreases s.len(),
{
    if s.len() == 0 || char_width(s[0]) > n {
        0
    } else {
        1 + chars_within(s.drop_first(), (n - char_width(s[0])) as nat)
    }
}

/// Characters kept in file names; any other becomes `_`.
pub open spec fn safe_char(c: char) -> char {
    if c == '#' || ('0' <= c && c <= '9') || ('A' <= c && c <= 'Z') || ('a' <= c && c <= 'z') {
        c
    } else {
        '_'
    }
}

/// The readable part of a zone's file name: `r` and the dotted path.
pub open spec fn readable_name(p: Seq<Seq<char>>) -> Seq<char> {
    seq!['r'] + dotted(p)
}

/// Cutting the readable name to its first `MAX_NAME_BYTES` bytes cuts between
/// characters (`String::truncate` stops otherwise).
pub open spec fn cuts_cleanly(p: Seq<Seq<char>>) -> bool {
    let name = readable_name(p);
    utf8_width(name) <= MAX_NAME_BYTES || utf8_width(name.take(chars_within(name, MAX_NAME_BYTES as nat) as int))
        == MAX_NAME_BYTES
}

/// What a `DefaultHasher` gives for the dotted path, hashed as a `str` is
/// (its bytes, then the byte `0xff`).
pub open spec fn name_hash(p: Seq<Seq<char>>) -> u64 {
    DefaultHasher::spec_finish(seq![encode_utf8(dotted(p)), seq![0xffu8]])
}

/// A zone's file name: the readable name cut to `MAX_NAME_BYTES` bytes, with
/// unsafe characters replaced, then `_` and the hash of the dotted path in
/// upper case hexadecimal.
pub open spec fn zone_file_name(p: Seq<Seq<char>>) -> Seq<char> {
    let name = readable_name(p);
    name.take(chars_within(name, MAX_NAME_BYTES as nat) as int).map_values(|c: char| safe_char(c))
        + seq!['_'] + digits(name_hash(p) as nat, 16)
}

fn width_of(c: char) -> (r: u64)
    ensures
        r == char_width(c),
{
    let u = c as u32;
    if u < 0x80 {
        1
    } else if u < 0x800 {
        2
    } else if u < 0x10000 {
        3
    } else {
        4
    }
}

fn safe(c: char) -> (r: char)
    ensures
        r == safe_char(c),
{
    if c == '#' || ('0' <= c && c <= '9') || ('A' <= c && c <= 'Z') || ('a' <= c && c <= 'z') {
        c
    } else {
        '_'
    }
}

/// The path's components joined with `.`.
fn dotted_name(path: &Path) -> (r: String)
    ensures
        r@ == dotted(path@),
{
    let mut name = String::new();
    let mut i: usize = 0;
    while i < path.path.len()
        invariant
            0 <= i <= path@.len(),
            name@ == dotted(path@.take(i as int)),
        decreases path@.len() - i,
    {
        proof {
            reveal_strlit(".");
            assert(path@.take(i + 1).drop_last() =~= path@.take(i as int));
            assert(path@.take(i + 1).last() == path.path@[i as int]@);
            if i == 0 {
                assert(path@.take(0) =~= Seq::<Seq<char>>::empty());
            }
        }
        if i > 0 {
            name.append(".");
        }
        name.append(path.path[i].as_str());
        proof {
            if i == 0 {
                assert(name@ =~= path@.take(1)[0]);
            } else {
                assert(name@ =~= dotted(path@.take(i as int)) + seq!['.'] + path@.take(i + 1).last());
            }
        }
        i = i + 1;
    }
    assert(path@.take(i as int) =~= path@);
    name
}

proof fn lemma_utf8_width_take(s: Seq<char>, i: int)
    requires
        0 <= i < s.len(),
    ensures
        utf8_width(s.take(i + 1)) == utf8_width(s.take(i)) + char_width(s[i]),
    decreases s.len(),
{
    if i == 0 {
        assert(s.take(1).drop_first() =~= Seq::<char>::empty());
        assert(s.take(0) =~= Seq::<char>::empty());
    } else {
        let t = s.drop_first();
        lemma_utf8_width_take(t, i - 1);
        assert(s.take(i + 1).drop_first() =~= t.take(i));
        assert(s.take(i).drop_first() =~= t.take(i - 1));
    }
}

/// Characters fit while their widths add up to at most `n`.
proof fn lemma_chars_within(s: Seq<char>, n: nat, i: int)
    requires
        0 <= i <= s.len(),
        utf8_width(s.take(i)) <= n,
    ensures
        i < chars_within(s, n) <==> (i < s.len() && utf8_width(s.take(i)) + char_width(s[i]) <= n),
        i <= chars_within(s, n),
        chars_within(s, n) <= s.len(),
    decreases s.len(),
{
    if i == 0 {
        assert(s.take(0) =~= Seq::<char>::empty());
        lemma_chars_within_len(s, n);
    } else {
        let t = s.drop_first();
        assert(s.take(i).drop_first() =~= t.take(i - 1));
        assert(char_width(s[0]) <= n);
        lemma_chars_within(t, (n - char_width(s[0])) as nat, i - 1);
        if i < s.len() {
            assert(t[i - 1] == s[i]);
        }
    }
}

proof fn lemma_chars_within_len(s: Seq<char>, n: nat)
    ensures
        chars_within(s, n) <= s.len(),
    decreases s.len(),
{
    if s.len() > 0 && char_width(s[0]) <= n {
        lemma_chars_within_len(s.drop_first(), (n - char_width(s[0])) as nat);
    }
}

/// The file name of the zone at `path`.
pub fn zonefilename(path: &Path) -> (r: String)
    requires
        cuts_cleanly(path@),
    ensures
        r@ == zone_file_name(path@),
{
    let zonename = dotted_name(path);
    let ghost name = readable_name(path@);
    let ghost keep = chars_within(name, MAX_NAME_BYTES as nat);
    let z = zonename.as_str();
    let n = z.unicode_len();

    // Truncate and remove unsafe characters
    let mut filename = String::new();
    push_char(&mut filename, safe('r'));
    let mut width: u64 = width_of('r');
    let mut i: usize = 0;
    proof {
        assert(name[0] == 'r');
        assert(name.take(1) =~= seq!['r']);
        lemma_utf8_width_take(name, 0);
        assert(name.take(0) =~= Seq::<char>::empty());
        lemma_chars_within(name, MAX_NAME_BYTES as nat, 0);
        assert(0 < keep) by {
            assert(name.take(0) =~= Seq::<char>::empty());
        }
        assert(filename@ =~= name.take(1).map_values(|c: char| safe_char(c)));
    }
    while i < n
        invariant
            n == zonename@.len(),
            z@ == zonename@,
            zonename@ == dotted(path@),
            name == seq!['r'] + zonename@,
            keep == chars_within(name, MAX_NAME_BYTES as nat),
            0 <= i <= n,
            i + 1 <= keep,
            width == utf8_width(name.take(i + 1)),
            width <= MAX_NAME_BYTES,
            filename@ == name.take(i + 1).map_values(|c: char| safe_char(c)),
        ensures
            i == n || (i + 1 < name.len() && width + char_width(name[i + 1]) > MAX_NAME_BYTES),
            i + 1 <= keep,
            width == utf8_width(name.take(i + 1)),
            filename@ == name.take(i + 1).map_values(|c: char| safe_char(c)),
        decreases n - i,
    {
        let c = z.get_char(i);
        let w = width_of(c);
        proof {
            assert(name[i + 1] == c);
            lemma_chars_within(name, MAX_NAME_BYTES as nat, i + 1);
        }
        if width + w > MAX_NAME_BYTES {
            break;
        }
        push_char(&mut filename, safe(c));
        proof {
            lemma_utf8_width_take(name, i + 1);
            assert(filename@ =~= name.take(i + 2).map_values(|c: char| safe_char(c)));
        }
        width = width + w;
        i = i + 1;
    }
    proof {
        lemma_chars_within(name, MAX_NAME_BYTES as nat, i + 1);
        lemma_chars_within_len(name, MAX_NAME_BYTES as nat);
        assert(keep == i + 1);
    }
    push_char(&mut filename, '_');

    // Add a unique hash
    let mut hasher = DefaultHasher::new();
    let bytes = zonename.as_str().as_bytes();
    hasher.write(bytes);
    let end: [u8; 1] = [0xff];
    let end_bytes: &[u8] = end.as_slice();
    proof {
        assert(end_bytes@ =~= seq![0xffu8]);
    }
    hasher.write(end_bytes);
    let hash = hasher.finish();
    proof {
        assert(bytes@ == encode_utf8(dotted(path@)));
        assert(hasher@ =~= seq![encode_utf8(dotted(path@)), seq![0xffu8]]);
    }
    let hex = format_number(hash, 16);
    filename.append(hex.as_str());
    filename
}

/// The readable part of a zone's file name keeps every ASCII digit, ASCII
/// letter and `#` of `r` and the dotted path at its position, and puts `_`
/// in place of every other character, up to the cut at `MAX_NAME_BYTES`
/// bytes; then come `_` and the hash.
pub proof fn law_file_name_characters(p: Seq<Seq<char>>, i: int)
    requires
        0 <= i < chars_within(readable_name(p), MAX_NAME_BYTES as nat),
    ensures
        ({
            let c = readable_name(p)[i];
            let kept = ('0' <= c && c <= '9') || ('a' <= c && c <= 'z') || ('A' <= c && c <= 'Z')
                || c == '#';
            &&& kept ==> zone_file_name(p)[i] == c
            &&& !kept ==> zone_file_name(p)[i] == '_'
        }),
        zone_file_name(p)[chars_within(readable_name(p), MAX_NAME_BYTES as nat) as int] == '_',
{
    let name = readable_name(p);
    let keep = chars_within(name, MAX_NAME_BYTES as nat);
    lemma_chars_within_len(name, MAX_NAME_BYTES as nat);
    let head = name.take(keep as int).map_values(|c: char| safe_char(c));
    assert(head.len() == keep);
    assert(zone_file_name(p)[i] == head[i]);
    assert(zone_file_name(p)[keep as int] == '_');
}

} // verus!
