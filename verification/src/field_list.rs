//! The textual notation for a schema's fields: `"name:type,name:type,..."`.
//!
//! Entries are separated by commas; surrounding white space is ignored and
//! empty entries are skipped. In an entry the name is the text before the
//! first colon and the type the text after it (`f32` when there is no colon).
//! Known types: f32, f64, i8, i16, i32, i64, u8, u16, u32, u64, bool.
use vstd::prelude::*;
use vstd::string::{StrSliceExecFns, StringExecFns};
use crate::component::{field_size, spec_type_name, FieldType};
use crate::component_builder::ComponentBuilder;

verus! {

/// `c` has the Unicode `White_Space` property (what `char::is_whitespace` tests).
pub open spec fn is_space(c: char) -> bool {
    let u = c as u32;
    ||| 0x09 <= u <= 0x0D
    ||| u == 0x20
    ||| u == 0x85
    ||| u == 0xA0
    ||| u == 0x1680
    ||| 0x2000 <= u <= 0x200A
    ||| u == 0x2028
    ||| u == 0x2029
    ||| u == 0x202F
    ||| u == 0x205F
    ||| u == 0x3000
}

/// `s` without its leading white space.
pub open spec fn trim_start(s: Seq<char>) -> Seq<char>
    decreases s.len(),
{
    if s.len() > 0 && is_space(s[0]) {
        trim_start(s.drop_first())
    } else {
        s
    }
}

/// `s` without its trailing white space.
pub open spec fn trim_end(s: Seq<char>) -> Seq<char>
    decreases s.len(),
{
    if s.len() > 0 && is_space(s.last()) {
        trim_end(s.drop_last())
    } else {
        s
    }
}

/// `s` without leading and trailing white space.
pub open spec fn trim(s: Seq<char>) -> Seq<char> {
    trim_end(trim_start(s))
}

/// The pieces of `s` between commas, in order (`"a,,b"` has three pieces,
/// the empty text one).
pub open spec fn split_commas(s: Seq<char>) -> Seq<Seq<char>>
    decreases s.len(),
{
    if s.len() == 0 {
        seq![Seq::<char>::empty()]
    } else {
        let p = split_commas(s.drop_last());
        if s.last() == ',' {
            p.push(Seq::<char>::empty())
        } else {
            p.update(p.len() - 1, p.last().push(s.last()))
        }
    }
}

/// The trimmed pieces among the first `n` of `ps` that are not empty.
pub open spec fn entries_upto(ps: Seq<Seq<char>>, n: int) -> Seq<Seq<char>>
    decreases n,
{
    if n <= 0 {
        Seq::empty()
    } else if trim(ps[n - 1]).len() == 0 {
        entries_upto(ps, n - 1)
    } else {
        entries_upto(ps, n - 1).push(trim(ps[n - 1]))
    }
}

/// The field entries of a field list.
pub open spec fn field_entries(s: Seq<char>) -> Seq<Seq<char>> {
    entries_upto(split_commas(s), split_commas(s).len() as int)
}

/// `t` holds a colon.
pub open spec fn has_colon(t: Seq<char>) -> bool {
    exists|k: int| 0 <= k < t.len() && t[k] == ':'
}

/// Position of the first colon of `t` (meaningful when `has_colon(t)`).
pub open spec fn first_colon(t: Seq<char>) -> int {
    choose|k: int| 0 <= k < t.len() && t[k] == ':' && forall|j: int| 0 <= j < k ==> t[j] != ':'
}

/// The field name of an entry.
#[verifier::opaque]
pub open spec fn entry_name(t: Seq<char>) -> Seq<char> {
    if has_colon(t) {
        trim(t.take(first_colon(t)))
    } else {
        trim(t)
    }
}

/// The type text of an entry.
#[verifier::opaque]
pub open spec fn entry_type_text(t: Seq<char>) -> Seq<char> {
    if has_colon(t) {
        trim(t.skip(first_colon(t) + 1))
    } else {
        "f32"@
    }
}

/// The field type a type text names, if any.
#[verifier::opaque]
pub open spec fn field_type_named(t: Seq<char>) -> Option<FieldType> {
    if t == "f32"@ {
        Some(FieldType::F32)
    } else if t == "f64"@ {
        Some(FieldType::F64)
    } else if t == "i8"@ {
        Some(FieldType::I8)
    } else if t == "i16"@ {
        Some(FieldType::I16)
    } else if t == "i32"@ {
        Some(FieldType::I32)
    } else if t == "i64"@ {
        Some(FieldType::I64)
    } else if t == "u8"@ {
        Some(FieldType::U8)
    } else if t == "u16"@ {
        Some(FieldType::U16)
    } else if t == "u32"@ {
        Some(FieldType::U32)
    } else if t == "u64"@ {
        Some(FieldType::U64)
    } else if t == "bool"@ {
        Some(FieldType::Bool)
    } else {
        None
    }
}

/// The name a schema description gives each field type is the type text the
/// field-list notation reads back as that same type, so distinct types are
/// described by distinct names.
pub proof fn lemma_type_name_round_trip(ft: FieldType)
    ensures
        field_type_named(spec_type_name(ft)) == Some(ft),
{
    reveal(field_type_named);
    reveal_strlit("f32");
    reveal_strlit("f64");
    reveal_strlit("i8");
    reveal_strlit("i16");
    reveal_strlit("i32");
    reveal_strlit("i64");
    reveal_strlit("u8");
    reveal_strlit("u16");
    reveal_strlit("u32");
    reveal_strlit("u64");
    reveal_strlit("bool");
    match ft {
        FieldType::F32 => {

        },
        FieldType::F64 => {
            assert("f64"@ != "f32"@) by { lemma_texts_differ("f64"@, "f32"@); }
        },
        FieldType::I8 => {
            assert("i8"@ != "f32"@) by { lemma_texts_differ("i8"@, "f32"@); }
            assert("i8"@ != "f64"@) by { lemma_texts_differ("i8"@, "f64"@); }
        },
        FieldType::I16 => {
            assert("i16"@ != "f32"@) by { lemma_texts_differ("i16"@, "f32"@); }
            assert("i16"@ != "f64"@) by { lemma_texts_differ("i16"@, "f64"@); }
            assert("i16"@ != "i8"@) by { lemma_texts_differ("i16"@, "i8"@); }
        },
        FieldType::I32 => {
            assert("i32"@ != "f32"@) by { lemma_texts_differ("i32"@, "f32"@); }
            assert("i32"@ != "f64"@) by { lemma_texts_differ("i32"@, "f64"@); }
            assert("i32"@ != "i8"@) by { lemma_texts_differ("i32"@, "i8"@); }
            assert("i32"@ != "i16"@) by { lemma_texts_differ("i32"@, "i16"@); }
        },
        FieldType::I64 => {
            assert("i64"@ != "f32"@) by { lemma_texts_differ("i64"@, "f32"@); }
            assert("i64"@ != "f64"@) by { lemma_texts_differ("i64"@, "f64"@); }
            assert("i64"@ != "i8"@) by { lemma_texts_differ("i64"@, "i8"@); }
            assert("i64"@ != "i16"@) by { lemma_texts_differ("i64"@, "i16"@); }
            assert("i64"@ != "i32"@) by { lemma_texts_differ("i64"@, "i32"@); }
        },
        FieldType::U8 => {
            assert("u8"@ != "f32"@) by { lemma_texts_differ("u8"@, "f32"@); }
            assert("u8"@ != "f64"@) by { lemma_texts_differ("u8"@, "f64"@); }
            assert("u8"@ != "i8"@) by { lemma_texts_differ("u8"@, "i8"@); }
            assert("u8"@ != "i16"@) by { lemma_texts_differ("u8"@, "i16"@); }
            assert("u8"@ != "i32"@) by { lemma_texts_differ("u8"@, "i32"@); }
            assert("u8"@ != "i64"@) by { lemma_texts_differ("u8"@, "i64"@); }
        },
        FieldType::U16 => {
            assert("u16"@ != "f32"@) by { lemma_texts_differ("u16"@, "f32"@); }
            assert("u16"@ != "f64"@) by { lemma_texts_differ("u16"@, "f64"@); }
            assert("u16"@ != "i8"@) by { lemma_texts_differ("u16"@, "i8"@); }
            assert("u16"@ != "i16"@) by { lemma_texts_differ("u16"@, "i16"@); }
            assert("u16"@ != "i32"@) by { lemma_texts_differ("u16"@, "i32"@); }
            assert("u16"@ != "i64"@) by { lemma_texts_differ("u16"@, "i64"@); }
            assert("u16"@ != "u8"@) by { lemma_texts_differ("u16"@, "u8"@); }
        },
        FieldType::U32 => {
            assert("u32"@ != "f32"@) by { lemma_texts_differ("u32"@, "f32"@); }
            assert("u32"@ != "f64"@) by { lemma_texts_differ("u32"@, "f64"@); }
            assert("u32"@ != "i8"@) by { lemma_texts_differ("u32"@, "i8"@); }
            assert("u32"@ != "i16"@) by { lemma_texts_differ("u32"@, "i16"@); }
            assert("u32"@ != "i32"@) by { lemma_texts_differ("u32"@, "i32"@); }
            assert("u32"@ != "i64"@) by { lemma_texts_differ("u32"@, "i64"@); }
            assert("u32"@ != "u8"@) by { lemma_texts_differ("u32"@, "u8"@); }
            assert("u32"@ != "u16"@) by { lemma_texts_differ("u32"@, "u16"@); }
        },
        FieldType::U64 => {
            assert("u64"@ != "f32"@) by { lemma_texts_differ("u64"@, "f32"@); }
            assert("u64"@ != "f64"@) by { lemma_texts_differ("u64"@, "f64"@); }
            assert("u64"@ != "i8"@) by { lemma_texts_differ("u64"@, "i8"@); }
            assert("u64"@ != "i16"@) by { lemma_texts_differ("u64"@, "i16"@); }
            assert("u64"@ != "i32"@) by { lemma_texts_differ("u64"@, "i32"@); }
            assert("u64"@ != "i64"@) by { lemma_texts_differ("u64"@, "i64"@); }
            assert("u64"@ != "u8"@) by { lemma_texts_differ("u64"@, "u8"@); }
            assert("u64"@ != "u16"@) by { lemma_texts_differ("u64"@, "u16"@); }
            assert("u64"@ != "u32"@) by { lemma_texts_differ("u64"@, "u32"@); }
        },
        FieldType::Bool => {
            assert("bool"@ != "f32"@) by { lemma_texts_differ("bool"@, "f32"@); }
            assert("bool"@ != "f64"@) by { lemma_texts_differ("bool"@, "f64"@); }
            assert("bool"@ != "i8"@) by { lemma_texts_differ("bool"@, "i8"@); }
            assert("bool"@ != "i16"@) by { lemma_texts_differ("bool"@, "i16"@); }
            assert("bool"@ != "i32"@) by { lemma_texts_differ("bool"@, "i32"@); }
            assert("bool"@ != "i64"@) by { lemma_texts_differ("bool"@, "i64"@); }
            assert("bool"@ != "u8"@) by { lemma_texts_differ("bool"@, "u8"@); }
            assert("bool"@ != "u16"@) by { lemma_texts_differ("bool"@, "u16"@); }
            assert("bool"@ != "u32"@) by { lemma_texts_differ("bool"@, "u32"@); }
            assert("bool"@ != "u64"@) by { lemma_texts_differ("bool"@, "u64"@); }
        },
    }
}

/// Texts of different lengths, or differing at their first or second
/// character, differ.
proof fn lemma_texts_differ(a: Seq<char>, b: Seq<char>)
    requires
        a.len() != b.len() || (a.len() > 0 && b.len() > 0 && a[0] != b[0]) || (a.len() > 1 && b.len() > 1 && a[1] != b[1]),
    ensures
        a != b,
{
}

/// The entry's type text names a known field type.
pub open spec fn entry_known(t: Seq<char>) -> bool {
    field_type_named(entry_type_text(t)) is Some
}

/// An entry whose type text names no known field type.
pub struct UnknownFieldType {
    pub field: String,
    pub given: String,
}

fn is_space_char(c: char) -> (r: bool)
    ensures
        r == is_space(c),
{
    let u = c as u32;
    (0x09 <= u && u <= 0x0D) || u == 0x20 || u == 0x85 || u == 0xA0 || u == 0x1680 || (0x2000 <= u && u
        <= 0x200A) || u == 0x2028 || u == 0x2029 || u == 0x202F || u == 0x205F || u == 0x3000
}

fn chars_of(s: &str) -> (r: Vec<char>)
    ensures
        r@ == s@,
{
    let mut out: Vec<char> = Vec::new();
    for c in it: s.chars()
        invariant
            out@ == it.seq().take(it.index() as int),
    {
        out.push(c);
    }
    proof {
        broadcast use vstd::string::axiom_spec_iter;
    }
    assert(out@ =~= s@);
    out
}

/// The bounds of `cs[lo..hi]` without its surrounding white space.
fn trim_range(cs: &Vec<char>, lo: usize, hi: usize) -> (r: (usize, usize))
    requires
        lo <= hi <= cs@.len(),
    ensures
        lo <= r.0 <= r.1 <= hi,
        cs@.subrange(r.0 as int, r.1 as int) == trim(cs@.subrange(lo as int, hi as int)),
{
    let s = Ghost(cs@);
    let mut a = lo;
    while a < hi && is_space_char(cs[a])
        invariant
            lo <= a <= hi <= cs@.len(),
            s@ == cs@,
            trim_start(s@.subrange(lo as int, hi as int)) == trim_start(s@.subrange(a as int, hi as int)),
        decreases hi - a,
    {
        proof {
            assert(s@.subrange(a as int, hi as int).drop_first() =~= s@.subrange(a as int + 1, hi as int));
        }
        a = a + 1;
    }
    assert(trim_start(s@.subrange(a as int, hi as int)) == s@.subrange(a as int, hi as int));
    let mut b = hi;
    while b > a && is_space_char(cs[b - 1])
        invariant
            lo <= a <= b <= hi <= cs@.len(),
            s@ == cs@,
            trim_end(s@.subrange(a as int, hi as int)) == trim_end(s@.subrange(a as int, b as int)),
        decreases b - a,
    {
        proof {
            assert(s@.subrange(a as int, b as int).drop_last() =~= s@.subrange(a as int, b as int - 1));
        }
        b = b - 1;
    }
    assert(trim_end(s@.subrange(a as int, b as int)) == s@.subrange(a as int, b as int));
    (a, b)
}

/// The first colon in `cs[lo..hi]`, if any.
fn find_colon(cs: &Vec<char>, lo: usize, hi: usize) -> (r: Option<usize>)
    requires
        lo <= hi <= cs@.len(),
    ensures
        match r {
            Some(k) => {
                &&& lo <= k < hi
                &&& cs@[k as int] == ':'
                &&& forall|j: int| lo <= j < k ==> cs@[j] != ':'
            },
            None => forall|j: int| lo <= j < hi ==> cs@[j] != ':',
        },
{
    let mut k = lo;
    while k < hi
        invariant
            lo <= k <= hi <= cs@.len(),
            forall|j: int| lo <= j < k ==> cs@[j] != ':',
        decreases hi - k,
    {
        if cs[k] == ':' {
            return Some(k);
        }
        k = k + 1;
    }
    None
}

/// The field type the text `cs[lo..hi]` names, if any.
fn type_named(cs: &Vec<char>, lo: usize, hi: usize) -> (r: Option<FieldType>)
    requires
        lo <= hi <= cs@.len(),
    ensures
        r == field_type_named(cs@.subrange(lo as int, hi as int)),
{
    proof {
        reveal(field_type_named);
        reveal_strlit("f32");
        reveal_strlit("f64");
        reveal_strlit("i8");
        reveal_strlit("i16");
        reveal_strlit("i32");
        reveal_strlit("i64");
        reveal_strlit("u8");
        reveal_strlit("u16");
        reveal_strlit("u32");
        reveal_strlit("u64");
        reveal_strlit("bool");
    }
    let ghost t = cs@.subrange(lo as int, hi as int);
    let n = hi - lo;
    assert(t.len() == n);
    assert("f32"@.len() == 3 && "f64"@.len() == 3 && "i16"@.len() == 3 && "i32"@.len() == 3);
    assert("i64"@.len() == 3 && "u16"@.len() == 3 && "u32"@.len() == 3 && "u64"@.len() == 3);
    assert("i8"@.len() == 2 && "u8"@.len() == 2 && "bool"@.len() == 4);
    if n == 2 {
        let a = cs[lo];
        let b = cs[lo + 1];
        assert(t[0] == a && t[1] == b);
        if a == 'i' && b == '8' {
            assert(t =~= "i8"@);
            return Some(FieldType::I8);
        }
        if a == 'u' && b == '8' {
            assert(t =~= "u8"@);
            return Some(FieldType::U8);
        }
        return None;
    }
    if n == 3 {
        let a = cs[lo];
        let b = cs[lo + 1];
        let c = cs[lo + 2];
        assert(t[0] == a && t[1] == b && t[2] == c);
        if a == 'f' && b == '3' && c == '2' {
            assert(t =~= "f32"@);
            return Some(FieldType::F32);
        }
        if a == 'f' && b == '6' && c == '4' {
            assert(t =~= "f64"@);
            return Some(FieldType::F64);
        }
        if a == 'i' && b == '1' && c == '6' {
            assert(t =~= "i16"@);
            return Some(FieldType::I16);
        }
        if a == 'i' && b == '3' && c == '2' {
            assert(t =~= "i32"@);
            return Some(FieldType::I32);
        }
        if a == 'i' && b == '6' && c == '4' {
            assert(t =~= "i64"@);
            return Some(FieldType::I64);
        }
        if a == 'u' && b == '1' && c == '6' {
            assert(t =~= "u16"@);
            return Some(FieldType::U16);
        }
        if a == 'u' && b == '3' && c == '2' {
            assert(t =~= "u32"@);
            return Some(FieldType::U32);
        }
        if a == 'u' && b == '6' && c == '4' {
            assert(t =~= "u64"@);
            return Some(FieldType::U64);
        }
        return None;
    }
    if n == 4 {
        let a = cs[lo];
        let b = cs[lo + 1];
        let c = cs[lo + 2];
        let d = cs[lo + 3];
        assert(t[0] == a && t[1] == b && t[2] == c && t[3] == d);
        if a == 'b' && b == 'o' && c == 'o' && d == 'l' {
            assert(t =~= "bool"@);
            return Some(FieldType::Bool);
        }
        return None;
    }
    None
}

/// The text has at least one piece.
proof fn lemma_split_nonempty(s: Seq<char>)
    ensures
        split_commas(s).len() >= 1,
    decreases s.len(),
{
    if s.len() > 0 {
        lemma_split_nonempty(s.drop_last());
    }
}

/// The pieces of `s.take(i + 1)` from those of `s.take(i)`.
proof fn lemma_split_step(s: Seq<char>, i: int)
    requires
        0 <= i < s.len(),
    ensures
        s[i] == ',' ==> split_commas(s.take(i + 1)) == split_commas(s.take(i)).push(Seq::<char>::empty()),
        s[i] != ',' ==> split_commas(s.take(i + 1)) == split_commas(s.take(i)).update(
            split_commas(s.take(i)).len() - 1,
            split_commas(s.take(i)).last().push(s[i]),
        ),
{
    assert(s.take(i + 1).drop_last() =~= s.take(i));
    assert(s.take(i + 1).last() == s[i]);
}

/// Only the first `m` pieces matter to `entries_upto`.
proof fn lemma_entries_prefix(ps: Seq<Seq<char>>, qs: Seq<Seq<char>>, m: int)
    requires
        0 <= m <= ps.len(),
        m <= qs.len(),
        forall|i: int| 0 <= i < m ==> ps[i] == qs[i],
    ensures
        entries_upto(ps, m) == entries_upto(qs, m),
    decreases m,
{
    if m > 0 {
        lemma_entries_prefix(ps, qs, m - 1);
    }
}

/// `k` is the first colon of `t`.
proof fn lemma_first_colon(t: Seq<char>, k: int)
    requires
        0 <= k < t.len(),
        t[k] == ':',
        forall|j: int| 0 <= j < k ==> t[j] != ':',
    ensures
        has_colon(t),
        first_colon(t) == k,
{
    assert(0 <= k < t.len() && t[k] == ':' && forall|j: int| 0 <= j < k ==> t[j] != ':');
    let c = first_colon(t);
    if c < k {
        assert(t[c] != ':');
    }
    if c > k {
        assert(t[k] != ':');
    }
}

/// Bounds of the field entries of `cs`, in order.
fn entry_ranges(cs: &Vec<char>) -> (r: Vec<(usize, usize)>)
    ensures
        r@.len() == field_entries(cs@).len(),
        r@.len() <= cs@.len(),
        forall|k: int|
            0 <= k < r@.len() ==> {
                &&& (#[trigger] r@[k]).0 < r@[k].1 <= cs@.len()
                &&& cs@.subrange(r@[k].0 as int, r@[k].1 as int) == field_entries(cs@)[k]
            },
{
    let n = cs.len();
    let ghost s = cs@;
    let mut out: Vec<(usize, usize)> = Vec::new();
    let mut start: usize = 0;
    let mut i: usize = 0;
    let ghost mut done: Seq<Seq<char>> = Seq::empty();
    proof {
        assert(s.take(0) =~= Seq::<char>::empty());
        assert(s.subrange(0, 0) =~= Seq::<char>::empty());
        assert(split_commas(s.take(0)) == done.push(s.subrange(0, 0)));
    }
    loop
        invariant
            s == cs@,
            n == s.len(),
            start <= i <= n,
            split_commas(s.take(i as int)) == done.push(s.subrange(start as int, i as int)),
            out@.len() == entries_upto(done, done.len() as int).len(),
            out@.len() <= start,
            forall|k: int|
                0 <= k < out@.len() ==> {
                    &&& (#[trigger] out@[k]).0 < out@[k].1 <= n
                    &&& s.subrange(out@[k].0 as int, out@[k].1 as int) == entries_upto(done, done.len() as int)[k]
                },
        decreases n - i,
    {
        if i == n || cs[i] == ',' {
            let (lo, hi) = trim_range(cs, start, i);
            let ghost piece = s.subrange(start as int, i as int);
            let ghost done2 = done.push(piece);
            proof {
                lemma_entries_prefix(done2, done, done.len() as int);
            }
            if lo < hi {
                out.push((lo, hi));
            }
            proof {
                let e0 = entries_upto(done, done.len() as int);
                let e1 = entries_upto(done2, done2.len() as int);
                if lo < hi {
                    assert(e1 == e0.push(trim(piece)));
                } else {
                    assert(e1 == e0);
                }
                assert forall|k: int| 0 <= k < out@.len() implies {
                    &&& (#[trigger] out@[k]).0 < out@[k].1 <= n
                    &&& s.subrange(out@[k].0 as int, out@[k].1 as int) == e1[k]
                } by {}
            }
            if i == n {
                proof {
                    assert(s.take(n as int) =~= s);
                    assert(split_commas(s) == done2);
                }
                return out;
            }
            proof {
                lemma_split_step(s, i as int);
                assert(s.subrange(i as int + 1, i as int + 1) =~= Seq::<char>::empty());
                done = done2;
            }
            start = i + 1;
        } else {
            proof {
                lemma_split_step(s, i as int);
                lemma_split_nonempty(s.take(i as int));
                assert(s.subrange(start as int, i as int + 1) =~= s.subrange(start as int, i as int).push(s[i as int]));
                assert(split_commas(s.take(i as int + 1)) =~= done.push(s.subrange(start as int, i as int + 1)));
            }
        }
        i = i + 1;
    }
}

/// Name bounds and field type of the entry `cs[lo..hi]`, or the entry's
/// name and type text when its type is not known.
#[verifier::rlimit(30)]
fn parse_entry(cs: &Vec<char>, spec: &str, lo: usize, hi: usize) -> (r: Result<(usize, usize, FieldType), UnknownFieldType>)
    requires
        cs@ == spec@,
        lo <= hi <= cs@.len(),
    ensures
        r is Ok <==> entry_known(cs@.subrange(lo as int, hi as int)),
        r matches Ok((nlo, nhi, ft)) ==> {
            &&& nlo <= nhi <= cs@.len()
            &&& cs@.subrange(nlo as int, nhi as int) == entry_name(cs@.subrange(lo as int, hi as int))
            &&& field_type_named(entry_type_text(cs@.subrange(lo as int, hi as int))) == Some(ft)
        },
        r matches Err(e) ==> {
            &&& e.field@ == entry_name(cs@.subrange(lo as int, hi as int))
            &&& e.given@ == entry_type_text(cs@.subrange(lo as int, hi as int))
        },
{
    let ghost t = cs@.subrange(lo as int, hi as int);
    proof {
        reveal(entry_name);
        reveal(entry_type_text);
    }
    match find_colon(cs, lo, hi) {
        Some(c) => {
            let (nlo, nhi) = trim_range(cs, lo, c);
            let (tlo, thi) = trim_range(cs, c + 1, hi);
            proof {
                lemma_first_colon(t, c - lo);
                assert(t.take(c - lo) =~= cs@.subrange(lo as int, c as int));
                assert(t.skip(c - lo + 1) =~= cs@.subrange(c + 1, hi as int));
            }
            match type_named(cs, tlo, thi) {
                Some(ft) => Ok((nlo, nhi, ft)),
                None => {
                    let field = String::from_str(spec.substring_char(nlo, nhi));
                    let given = String::from_str(spec.substring_char(tlo, thi));
                    Err(UnknownFieldType { field, given })
                },
            }
        },
        None => {
            let (nlo, nhi) = trim_range(cs, lo, hi);
            proof {
                assert(!has_colon(t));
                reveal_strlit("f32");
                reveal(field_type_named);
            }
            Ok((nlo, nhi, FieldType::F32))
        },
    }
}

/// Build the schema `name` from its field list `spec`, fields in the order
/// written. Fails with the first entry (in order) whose type is not known.
pub fn parse_schema(name: &str, spec: &str) -> (r: Result<ComponentBuilder, UnknownFieldType>)
    requires
        8 * spec@.len() <= usize::MAX,
    ensures
        r is Ok <==> forall|k: int|
            0 <= k < field_entries(spec@).len() ==> entry_known(#[trigger] field_entries(spec@)[k]),
        r matches Ok(b) ==> {
            &&& b.wf()
            &&& b.spec_name() == name@
            &&& b.spec_fields().len() == field_entries(spec@).len()
            &&& forall|k: int|
                0 <= k < b.spec_fields().len() ==> {
                    &&& (#[trigger] b.spec_fields()[k]).name@ == entry_name(field_entries(spec@)[k])
                    &&& field_type_named(entry_type_text(field_entries(spec@)[k])) == Some(b.spec_fields()[k].field_type)
                }
        },
        r matches Err(e) ==> exists|j: int|
            {
                &&& 0 <= j < field_entries(spec@).len()
                &&& !entry_known(#[trigger] field_entries(spec@)[j])
                &&& forall|k: int| 0 <= k < j ==> entry_known(#[trigger] field_entries(spec@)[k])
                &&& e.field@ == entry_name(field_entries(spec@)[j])
                &&& e.given@ == entry_type_text(field_entries(spec@)[j])
            },
{
    let cs = chars_of(spec);
    let ranges = entry_ranges(&cs);
    let ghost es = field_entries(spec@);
    let mut b = ComponentBuilder::new(name);
    let mut k: usize = 0;
    while k < ranges.len()
        invariant
            cs@ == spec@,
            es == field_entries(spec@),
            ranges@.len() == es.len(),
            ranges@.len() <= spec@.len(),
            8 * spec@.len() <= usize::MAX,
            forall|j: int|
                0 <= j < ranges@.len() ==> {
                    &&& (#[trigger] ranges@[j]).0 < ranges@[j].1 <= cs@.len()
                    &&& cs@.subrange(ranges@[j].0 as int, ranges@[j].1 as int) == es[j]
                },
            k <= ranges@.len(),
            b.wf(),
            b.spec_name() == name@,
            b.spec_fields().len() == k,
            b.spec_size() <= 8 * k,
            forall|j: int| 0 <= j < k ==> entry_known(#[trigger] es[j]),
            forall|j: int|
                0 <= j < k ==> {
                    &&& (#[trigger] b.spec_fields()[j]).name@ == entry_name(es[j])
                    &&& field_type_named(entry_type_text(es[j])) == Some(b.spec_fields()[j].field_type)
                },
        decreases ranges@.len() - k,
    {
        let (lo, hi) = ranges[k];
        assert(cs@.subrange(lo as int, hi as int) == es[k as int]);
        let (nlo, nhi, ft) = match parse_entry(&cs, spec, lo, hi) {
            Ok(x) => x,
            Err(e) => {
                assert(!entry_known(es[k as int]));
                return Err(e);
            },
        };
        proof {
            assert(field_size(ft) <= 8);
        }
        b = b.field(spec.substring_char(nlo, nhi), ft);
        proof {
            assert forall|j: int| 0 <= j < k + 1 implies {
                &&& (#[trigger] b.spec_fields()[j]).name@ == entry_name(es[j])
                &&& field_type_named(entry_type_text(es[j])) == Some(b.spec_fields()[j].field_type)
            } by {
                if j < k {
                    assert(b.spec_fields()[j] == b.spec_fields().drop_last()[j]);
                }
            }
        }
        k = k + 1;
    }
    Ok(b)
}

} // verus!
