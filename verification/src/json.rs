//! The on-disk shape of the property mapping: one JSON object per mapping,
//! one nested object per collection, every key and value a string. Writing
//! is exact; reading accepts exactly what writing produces and returns its
//! unique preimage.

use vstd::prelude::*;

use crate::properties::{InnerView, MappingView, StorageError};

verus! {

/// A string escaped for a JSON literal: quote and backslash get a backslash.
pub open spec fn esc(s: Seq<char>) -> Seq<char>
    decreases s.len(),
{
    if s.len() == 0 {
        Seq::empty()
    } else {
        (if s[0] == '"' || s[0] == '\\' {
            seq!['\\', s[0]]
        } else {
            seq![s[0]]
        }) + esc(s.drop_first())
    }
}

/// A quoted JSON string literal.
pub open spec fn quoted(s: Seq<char>) -> Seq<char> {
    seq!['"'] + esc(s) + seq!['"']
}

/// One `"key":"value"` member.
pub open spec fn inner_item(kv: (Seq<char>, Seq<char>)) -> Seq<char> {
    quoted(kv.0) + seq![':'] + quoted(kv.1)
}

/// The members of one collection's object, comma-joined.
pub open spec fn inner_items(inner: InnerView) -> Seq<char>
    decreases inner.len(),
{
    if inner.len() == 0 {
        Seq::empty()
    } else if inner.len() == 1 {
        inner_item(inner[0])
    } else {
        inner_items(inner.drop_last()) + seq![','] + inner_item(inner.last())
    }
}

/// One collection's object.
pub open spec fn inner_json(inner: InnerView) -> Seq<char> {
    seq!['{'] + inner_items(inner) + seq!['}']
}

/// One `"collection":{...}` member.
pub open spec fn outer_item(e: (Seq<char>, InnerView)) -> Seq<char> {
    quoted(e.0) + seq![':'] + inner_json(e.1)
}

/// The members of the top-level object, comma-joined.
pub open spec fn outer_items(entries: MappingView) -> Seq<char>
    decreases entries.len(),
{
    if entries.len() == 0 {
        Seq::empty()
    } else if entries.len() == 1 {
        outer_item(entries[0])
    } else {
        outer_items(entries.drop_last()) + seq![','] + outer_item(entries.last())
    }
}

/// The whole file: the top-level object.
pub open spec fn json_of(entries: MappingView) -> Seq<char> {
    seq!['{'] + outer_items(entries) + seq!['}']
}

/// Escaping distributes over concatenation.
pub proof fn lemma_esc_concat(x: Seq<char>, y: Seq<char>)
    ensures
        esc(x + y) == esc(x) + esc(y),
    decreases x.len(),
{
    if x.len() == 0 {
        assert(x + y =~= y);
        assert(esc(x) + esc(y) =~= esc(y));
    } else {
        assert((x + y).drop_first() =~= x.drop_first() + y);
        lemma_esc_concat(x.drop_first(), y);
        assert(esc(x + y) =~= esc(x) + esc(y));
    }
}

/// Escaping one character.
pub proof fn lemma_esc_single(c: char)
    ensures
        (c == '"' || c == '\\') ==> esc(seq![c]) == seq!['\\', c],
        !(c == '"' || c == '\\') ==> esc(seq![c]) == seq![c],
{
    let s = seq![c];
    assert(s.len() == 1);
    assert(s[0] == c);
    assert(s.drop_first() =~= Seq::<char>::empty());
    assert(esc(Seq::<char>::empty()) == Seq::<char>::empty());
    assert(esc(s) == (if s[0] == '"' || s[0] == '\\' {
        seq!['\\', s[0]]
    } else {
        seq![s[0]]
    }) + esc(s.drop_first()));
    if c == '"' || c == '\\' {
        assert(esc(s) =~= seq!['\\', c]);
    } else {
        assert(esc(s) =~= seq![c]);
    }
}

/// Relies on std's `FromIterator` for `String`: collecting characters gives
/// the string of exactly those characters.
#[verifier::external_body]
fn chars_to_string(chars: &Vec<char>) -> (r: String)
    ensures
        r@ == chars@,
{
    chars.iter().collect()
}

/// Appends the escaped characters of `s`.
fn push_escaped(out: &mut Vec<char>, s: &str)
    ensures
        final(out)@ == old(out)@ + esc(s@),
{
    let ghost base = out@;
    let n = s.unicode_len();
    let mut i: usize = 0;
    while i < n
        invariant
            0 <= i <= n,
            n == s@.len(),
            out@ == base + esc(s@.take(i as int)),
        decreases n - i,
    {
        let c = s.get_char(i);
        if c == '"' || c == '\\' {
            out.push('\\');
            out.push(c);
        } else {
            out.push(c);
        }
        proof {
            assert(s@.take(i + 1) =~= s@.take(i as int) + seq![s@[i as int]]);
            lemma_esc_concat(s@.take(i as int), seq![s@[i as int]]);
            assert(seq![s@[i as int]].drop_first() =~= Seq::<char>::empty());
            lemma_esc_single(s@[i as int]);
            assert(out@ =~= base + esc(s@.take(i + 1)));
        }
        i += 1;
    }
    proof {
        assert(s@.take(n as int) =~= s@);
    }
}

/// Appends a quoted JSON string literal for `s`.
fn push_quoted(out: &mut Vec<char>, s: &str)
    ensures
        final(out)@ == old(out)@ + quoted(s@),
{
    let ghost base = out@;
    out.push('"');
    proof {
        assert(out@ =~= base + seq!['"']);
    }
    push_escaped(out, s);
    out.push('"');
    proof {
        assert(out@ =~= base + quoted(s@));
    }
}

/// Serializes one mapping in the on-disk shape; `json_of` of the entries'
/// views is exactly what comes out.
pub fn mapping_to_json(entries: &Vec<(String, Vec<(String, String)>)>) -> (r: Vec<char>)
    ensures
        r@ == json_of(view_of_entries(entries@)),
{
    let ghost ev = view_of_entries(entries@);
    let mut out: Vec<char> = Vec::new();
    out.push('{');
    proof {
        assert(out@ =~= seq!['{'] + outer_items(ev.take(0)));
        assert(outer_items(ev.take(0)) =~= Seq::<char>::empty());
        assert(out@ =~= seq!['{']);
    }
    let mut i: usize = 0;
    while i < entries.len()
        invariant
            0 <= i <= entries@.len(),
            ev == view_of_entries(entries@),
            ev.len() == entries@.len(),
            forall|t: int|
                0 <= t < entries@.len() ==> #[trigger] ev[t] == ((entries@[t].0)@,
                view_of_inner(entries@[t].1@)),
            out@ == seq!['{'] + outer_items(ev.take(i as int)),
        decreases entries@.len() - i,
    {
        if i > 0 {
            out.push(',');
        }
        let e = &entries[i];
        push_quoted(&mut out, e.0.as_str());
        out.push(':');
        out.push('{');
        let ghost iv = view_of_inner(e.1@);
        let ghost inner_base = out@;
        let mut j: usize = 0;
        while j < e.1.len()
            invariant
                0 <= j <= e.1@.len(),
                iv == view_of_inner(e.1@),
                iv.len() == e.1@.len(),
                forall|t: int|
                    0 <= t < e.1@.len() ==> #[trigger] iv[t] == ((e.1@[t].0)@, (e.1@[t].1)@),
                out@ == inner_base + inner_items(iv.take(j as int)),
            decreases e.1@.len() - j,
        {
            if j > 0 {
                out.push(',');
            }
            let kv = &e.1[j];
            push_quoted(&mut out, kv.0.as_str());
            out.push(':');
            push_quoted(&mut out, kv.1.as_str());
            proof {
                assert(iv.take(j + 1).drop_last() =~= iv.take(j as int));
                assert(iv.take(j + 1).last() == iv[j as int]);
                if j == 0 {
                    assert(out@ =~= inner_base + inner_items(iv.take(1)));
                } else {
                    assert(out@ =~= inner_base + inner_items(iv.take(j + 1)));
                }
            }
            j += 1;
        }
        out.push('}');
        proof {
            assert(iv.take(e.1@.len() as int) =~= iv);
            assert(ev.take(i + 1).drop_last() =~= ev.take(i as int));
            assert(ev.take(i + 1).last() == ev[i as int]);
            assert(ev[i as int].1 == iv);
            if i == 0 {
                assert(out@ =~= seq!['{'] + outer_items(ev.take(1)));
            } else {
                assert(out@ =~= seq!['{'] + outer_items(ev.take(i + 1)));
            }
        }
        i += 1;
    }
    out.push('}');
    proof {
        assert(ev.take(ev.len() as int) =~= ev);
        assert(out@ =~= json_of(ev));
    }
    out
}

/// The ghost view of one collection's concrete key/value pairs.
pub open spec fn view_of_inner(inner: Seq<(String, String)>) -> InnerView {
    inner.map_values(|kv: (String, String)| ((kv.0)@, (kv.1)@))
}

/// The ghost view of the concrete entries.
pub open spec fn view_of_entries(entries: Seq<(String, Vec<(String, String)>)>) -> MappingView {
    entries.map_values(|e: (String, Vec<(String, String)>)| ((e.0)@, view_of_inner(e.1@)))
}

/// Parses one quoted string literal starting at `from`. On success the
/// consumed slice is exactly the quoted form of the returned string.
#[verifier::rlimit(100)]
fn parse_string(chars: &Vec<char>, from: usize) -> (r: Result<(String, usize), StorageError>)
    requires
        from <= chars@.len(),
    ensures
        r matches Ok((s, j)) ==> from < j <= chars@.len() && chars@.subrange(
            from as int,
            j as int,
        ) == quoted(s@),
        forall|a: Seq<char>, rest: Seq<char>|
            chars@.skip(from as int) == quoted(a) + rest ==> r is Ok,
{
    let n = chars.len();
    if from >= n || chars[from] != '"' {
        proof {
            if exists|a: Seq<char>, rest: Seq<char>|
                chars@.skip(from as int) == quoted(a) + rest {
                let (a, rest) = choose|a: Seq<char>, rest: Seq<char>|
                    chars@.skip(from as int) == quoted(a) + rest;
                assert(chars@.skip(from as int).len() >= 2);
                assert(chars@.skip(from as int)[0] == chars@[from as int]);
                assert((quoted(a) + rest)[0] == '"');
                assert(false);
            }
        }
        return Err(StorageError::ServiceError { description: "expected a string".to_owned() });
    }
    let mut cv: Vec<char> = Vec::new();
    let mut j = from + 1;
    proof {
        assert forall|a: Seq<char>, rest: Seq<char>|
            chars@.skip(from as int) == quoted(a) + rest implies exists|ar: Seq<char>|
            chars@.skip(j as int) == esc(ar) + seq!['"'] + rest by {
            assert(chars@.skip(j as int) =~= chars@.skip(from as int).skip(1));
            assert(chars@.skip(from as int).skip(1) =~= esc(a) + seq!['"'] + rest);
            assert(chars@.skip(j as int) == esc(a) + seq!['"'] + rest);
        }
    }
    loop
        invariant
            from + 1 <= j <= n,
            n == chars@.len(),
            chars@.subrange(from + 1, j as int) == esc(cv@),
            forall|a: Seq<char>, rest: Seq<char>|
                chars@.skip(from as int) == quoted(a) + rest ==> exists|ar: Seq<char>|
                    chars@.skip(j as int) == esc(ar) + seq!['"'] + rest,
        ensures
            j < n && chars@[j as int] == '"' && chars@.subrange(from + 1, j as int) == esc(
                cv@,
            ),
        decreases n - j,
    {
        if j >= n {
            proof {
                if exists|a: Seq<char>, rest: Seq<char>|
                    chars@.skip(from as int) == quoted(a) + rest {
                    let (a, rest) = choose|a: Seq<char>, rest: Seq<char>|
                        chars@.skip(from as int) == quoted(a) + rest;
                    let ar = choose|ar: Seq<char>|
                        chars@.skip(j as int) == esc(ar) + seq!['"'] + rest;
                    assert(chars@.skip(j as int).len() == 0);
                    assert((esc(ar) + seq!['"'] + rest).len() >= 1);
                    assert(false);
                }
            }
            return Err(
                StorageError::ServiceError { description: "unterminated string".to_owned() },
            );
        }
        let c = chars[j];
        if c == '"' {
            break ;
        } else if c == '\\' {
            proof {
                // Under any canonical decomposition the remaining tail
                // starts with a whole escape pair.
                assert forall|a: Seq<char>, rest: Seq<char>|
                    chars@.skip(from as int) == quoted(a) + rest implies exists|ar: Seq<char>|
                    (chars@.skip(j as int) == esc(ar) + seq!['"'] + rest && ar.len() > 0 && (
                    ar[0] == '"' || ar[0] == '\\') && esc(ar) == seq!['\\', ar[0]] + esc(
                        ar.drop_first(),
                    )) by {
                    let ar = choose|ar: Seq<char>|
                        chars@.skip(j as int) == esc(ar) + seq!['"'] + rest;
                    let s0 = chars@.skip(j as int);
                    assert(s0[0] == chars@[j as int]);
                    if ar.len() == 0 {
                        assert(s0[0] == '"');
                        assert(false);
                    }
                    if !(ar[0] == '"' || ar[0] == '\\') {
                        assert(esc(ar) == seq![ar[0]] + esc(ar.drop_first()));
                        assert(s0[0] == ar[0]);
                        assert(false);
                    }
                    assert(esc(ar) == seq!['\\', ar[0]] + esc(ar.drop_first()));
                }
            }
            if j + 1 >= n {
                proof {
                    if exists|a: Seq<char>, rest: Seq<char>|
                        chars@.skip(from as int) == quoted(a) + rest {
                        let (a, rest) = choose|a: Seq<char>, rest: Seq<char>|
                            chars@.skip(from as int) == quoted(a) + rest;
                        let ar = choose|ar: Seq<char>|
                            chars@.skip(j as int) == esc(ar) + seq!['"'] + rest && ar.len() > 0
                                && (ar[0] == '"' || ar[0] == '\\') && esc(ar) == seq![
                            '\\',
                            ar[0],
                        ] + esc(ar.drop_first());
                        assert(chars@.skip(j as int).len() >= 3);
                        assert(false);
                    }
                }
                return Err(
                    StorageError::ServiceError { description: "unterminated escape".to_owned() },
                );
            }
            let c2 = chars[j + 1];
            if c2 != '"' && c2 != '\\' {
                proof {
                    if exists|a: Seq<char>, rest: Seq<char>|
                        chars@.skip(from as int) == quoted(a) + rest {
                        let (a, rest) = choose|a: Seq<char>, rest: Seq<char>|
                            chars@.skip(from as int) == quoted(a) + rest;
                        let ar = choose|ar: Seq<char>|
                            chars@.skip(j as int) == esc(ar) + seq!['"'] + rest && ar.len() > 0
                                && (ar[0] == '"' || ar[0] == '\\') && esc(ar) == seq![
                            '\\',
                            ar[0],
                        ] + esc(ar.drop_first());
                        assert(chars@.skip(j as int)[1] == chars@[j + 1]);
                        assert((esc(ar) + seq!['"'] + rest)[1] == ar[0]);
                        assert(false);
                    }
                }
                return Err(
                    StorageError::ServiceError { description: "unknown escape".to_owned() },
                );
            }
            let ghost cv0 = cv@;
            cv.push(c2);
            proof {
                lemma_esc_concat(cv0, seq![c2]);
                lemma_esc_single(c2);
                assert(cv0 + seq![c2] =~= cv@);
                assert(esc(cv@) == esc(cv0) + seq!['\\', c2]);
                assert(chars@.subrange(from + 1, j + 2) =~= chars@.subrange(from + 1, j as int)
                    + seq![chars@[j as int], chars@[j + 1]]);
                assert(chars@.subrange(from + 1, j + 2) =~= esc(cv@));
                assert forall|a: Seq<char>, rest: Seq<char>|
                    chars@.skip(from as int) == quoted(a) + rest implies exists|ar2: Seq<char>|
                    chars@.skip(j + 2) == esc(ar2) + seq!['"'] + rest by {
                    let ar = choose|ar: Seq<char>|
                        chars@.skip(j as int) == esc(ar) + seq!['"'] + rest && ar.len() > 0 && (
                        ar[0] == '"' || ar[0] == '\\') && esc(ar) == seq!['\\', ar[0]] + esc(
                            ar.drop_first(),
                        );
                    assert(chars@.skip(j + 2) =~= chars@.skip(j as int).skip(2));
                    assert(chars@.skip(j as int).skip(2) =~= esc(ar.drop_first()) + seq!['"']
                        + rest);
                    assert(chars@.skip(j + 2) == esc(ar.drop_first()) + seq!['"'] + rest);
                }
            }
            j += 2;
        } else {
            let ghost cv0 = cv@;
            cv.push(c);
            proof {
                lemma_esc_concat(cv0, seq![c]);
                lemma_esc_single(c);
                assert(cv0 + seq![c] =~= cv@);
                assert(esc(cv@) == esc(cv0) + seq![c]);
                assert(chars@.subrange(from + 1, j + 1) =~= chars@.subrange(from + 1, j as int)
                    + seq![chars@[j as int]]);
                assert(chars@.subrange(from + 1, j + 1) =~= esc(cv@));
                assert forall|a: Seq<char>, rest: Seq<char>|
                    chars@.skip(from as int) == quoted(a) + rest implies exists|ar2: Seq<char>|
                    chars@.skip(j + 1) == esc(ar2) + seq!['"'] + rest by {
                    let ar = choose|ar: Seq<char>|
                        chars@.skip(j as int) == esc(ar) + seq!['"'] + rest;
                    let s0 = chars@.skip(j as int);
                    assert(s0[0] == chars@[j as int]);
                    if ar.len() == 0 {
                        assert(s0[0] == '"');
                        assert(false);
                    }
                    if ar[0] == '"' || ar[0] == '\\' {
                        assert(esc(ar) == seq!['\\', ar[0]] + esc(ar.drop_first()));
                        assert(s0[0] == '\\');
                        assert(false);
                    }
                    assert(esc(ar) == seq![ar[0]] + esc(ar.drop_first()));
                    assert(chars@.skip(j + 1) =~= s0.skip(1));
                    assert(s0.skip(1) =~= esc(ar.drop_first()) + seq!['"'] + rest);
                    assert(chars@.skip(j + 1) == esc(ar.drop_first()) + seq!['"'] + rest);
                }
            }
            j += 1;
        }
    }
    let s = chars_to_string(&cv);
    proof {
        assert(chars@.subrange(from as int, j + 1) =~= seq!['"'] + chars@.subrange(
            from + 1,
            j as int,
        ) + seq!['"']);
        assert(chars@.subrange(from as int, j + 1) =~= quoted(s@));
    }
    Ok((s, j + 1))
}

/// What follows the first member of a non-empty run: the closing brace, or
/// a comma and the remaining members and the closing brace; `rest` follows.
pub open spec fn inner_tail(ivr: InnerView, rest: Seq<char>) -> Seq<char> {
    if ivr.len() == 1 {
        seq!['}'] + rest
    } else {
        seq![','] + inner_items(ivr.drop_first()) + seq!['}'] + rest
    }
}

/// A non-empty closed run starts with its first member, spelled out.
proof fn lemma_inner_items_head(ivr: InnerView, rest: Seq<char>)
    requires
        ivr.len() >= 1,
    ensures
        inner_items(ivr) + seq!['}'] + rest == quoted(ivr[0].0) + (seq![':'] + quoted(
            ivr[0].1,
        ) + inner_tail(ivr, rest)),
{
    if ivr.len() == 1 {
        assert(inner_items(ivr) == inner_item(ivr[0]));
    } else {
        lemma_inner_items_front(ivr);
    }
    assert(inner_items(ivr) + seq!['}'] + rest =~= quoted(ivr[0].0) + (seq![':'] + quoted(
        ivr[0].1,
    ) + inner_tail(ivr, rest)));
}

/// A collection object determines its members and its continuation.
proof fn lemma_inner_json_split(x: InnerView, y: InnerView, r1: Seq<char>, r2: Seq<char>)
    requires
        inner_json(x) + r1 == inner_json(y) + r2,
    ensures
        x == y,
        r1 == r2,
{
    let lhs = inner_json(x) + r1;
    let rhs = inner_json(y) + r2;
    assert(lhs.skip(1) =~= inner_items(x) + seq!['}'] + r1);
    assert(rhs.skip(1) =~= inner_items(y) + seq!['}'] + r2);
    assert(lhs.skip(1) == rhs.skip(1));
    lemma_inner_items_split(x, y, r1, r2);
}

/// Parses one collection object starting at `from`. On success the consumed
/// slice is exactly the object form of the returned pairs.
#[verifier::rlimit(80)]
fn parse_inner(chars: &Vec<char>, from: usize) -> (r: Result<
    (Vec<(String, String)>, usize),
    StorageError,
>)
    requires
        from <= chars@.len(),
    ensures
        r matches Ok((inner, j)) ==> from < j <= chars@.len() && chars@.subrange(
            from as int,
            j as int,
        ) == inner_json(view_of_inner(inner@)),
        forall|iv: InnerView, rest: Seq<char>|
            chars@.skip(from as int) == inner_json(iv) + rest ==> r is Ok,
{
    let n = chars.len();
    if from >= n || chars[from] != '{' {
        proof {
            if exists|iv: InnerView, rest: Seq<char>|
                chars@.skip(from as int) == inner_json(iv) + rest {
                let (iv, rest) = choose|iv: InnerView, rest: Seq<char>|
                    chars@.skip(from as int) == inner_json(iv) + rest;
                assert(chars@.skip(from as int).len() >= 2);
                assert(chars@.skip(from as int)[0] == chars@[from as int]);
                assert((inner_json(iv) + rest)[0] == '{');
                assert(false);
            }
        }
        return Err(StorageError::ServiceError { description: "expected an object".to_owned() });
    }
    let mut inner: Vec<(String, String)> = Vec::new();
    let mut j = from + 1;
    if j < n && chars[j] == '}' {
        proof {
            assert(chars@.subrange(from as int, j + 1) =~= seq!['{', '}']);
            assert(inner_json(view_of_inner(inner@)) =~= seq!['{', '}']);
        }
        return Ok((inner, j + 1));
    }
    proof {
        assert forall|iv: InnerView, rest: Seq<char>|
            chars@.skip(from as int) == inner_json(iv) + rest implies exists|ivr: InnerView|
            ivr.len() >= 1 && chars@.skip(j as int) == inner_items(ivr) + seq!['}'] + rest by {
            assert(chars@.skip(j as int) =~= chars@.skip(from as int).skip(1));
            assert(chars@.skip(from as int).skip(1) =~= inner_items(iv) + seq!['}'] + rest);
            assert(chars@.skip(j as int) == inner_items(iv) + seq!['}'] + rest);
            if iv.len() == 0 {
                assert(inner_items(iv) == Seq::<char>::empty());
                assert(chars@.skip(j as int)[0] == chars@[j as int]);
                assert((inner_items(iv) + seq!['}'] + rest)[0] == '}');
                assert(chars@.skip(j as int).len() >= 1);
                assert(false);
            }
        }
    }
    loop
        invariant_except_break
            inner@.len() == 0 ==> chars@.subrange(from as int, j as int) =~= seq!['{'],
            inner@.len() > 0 ==> chars@.subrange(from as int, j as int) =~= seq!['{']
                + inner_items(view_of_inner(inner@)) + seq![','],
            forall|iv: InnerView, rest: Seq<char>|
                chars@.skip(from as int) == inner_json(iv) + rest ==> exists|ivr: InnerView|
                    ivr.len() >= 1 && chars@.skip(j as int) == inner_items(ivr) + seq!['}']
                        + rest,
        invariant
            from + 1 <= j <= n,
            n == chars@.len(),
        ensures
            j <= n,
            inner@.len() > 0,
            chars@.subrange(from as int, j as int) =~= seq!['{'] + inner_items(
                view_of_inner(inner@),
            ) + seq!['}'],
        decreases n - j,
    {
        let ghost pre = chars@.subrange(from as int, j as int);
        let ghost iv_old = view_of_inner(inner@);
        let ghost j0 = j as int;
        let (k, j2) = match parse_string(chars, j) {
            Ok(v) => v,
            Err(e) => {
                proof {
                    if exists|iv: InnerView, rest: Seq<char>|
                        chars@.skip(from as int) == inner_json(iv) + rest {
                        let (iv, rest) = choose|iv: InnerView, rest: Seq<char>|
                            chars@.skip(from as int) == inner_json(iv) + rest;
                        let ivr = choose|ivr: InnerView|
                            ivr.len() >= 1 && chars@.skip(j0) == inner_items(ivr) + seq!['}']
                                + rest;
                        lemma_inner_items_head(ivr, rest);
                        assert(chars@.skip(j0) == quoted(ivr[0].0) + (seq![':'] + quoted(
                            ivr[0].1,
                        ) + inner_tail(ivr, rest)));
                        assert(false);
                    }
                }
                return Err(e);
            },
        };
        proof {
            assert(chars@.skip(j0) =~= chars@.subrange(j0, j2 as int) + chars@.skip(
                j2 as int,
            ));
        }
        if j2 >= n || chars[j2] != ':' {
            proof {
                if exists|iv: InnerView, rest: Seq<char>|
                    chars@.skip(from as int) == inner_json(iv) + rest {
                    let (iv, rest) = choose|iv: InnerView, rest: Seq<char>|
                        chars@.skip(from as int) == inner_json(iv) + rest;
                    let ivr = choose|ivr: InnerView|
                        ivr.len() >= 1 && chars@.skip(j0) == inner_items(ivr) + seq!['}']
                            + rest;
                    lemma_inner_items_head(ivr, rest);
                    lemma_quoted_split(
                        k@,
                        ivr[0].0,
                        chars@.skip(j2 as int),
                        seq![':'] + quoted(ivr[0].1) + inner_tail(ivr, rest),
                    );
                    assert(chars@.skip(j2 as int)[0] == chars@[j2 as int]);
                    assert((seq![':'] + quoted(ivr[0].1) + inner_tail(ivr, rest))[0] == ':');
                    assert(false);
                }
            }
            return Err(StorageError::ServiceError { description: "expected a colon".to_owned() });
        }
        proof {
            assert(chars@.skip(j2 + 1) =~= chars@.skip(j2 as int).skip(1));
        }
        let (v, j3) = match parse_string(chars, j2 + 1) {
            Ok(v) => v,
            Err(e) => {
                proof {
                    if exists|iv: InnerView, rest: Seq<char>|
                        chars@.skip(from as int) == inner_json(iv) + rest {
                        let (iv, rest) = choose|iv: InnerView, rest: Seq<char>|
                            chars@.skip(from as int) == inner_json(iv) + rest;
                        let ivr = choose|ivr: InnerView|
                            ivr.len() >= 1 && chars@.skip(j0) == inner_items(ivr) + seq!['}']
                                + rest;
                        lemma_inner_items_head(ivr, rest);
                        lemma_quoted_split(
                            k@,
                            ivr[0].0,
                            chars@.skip(j2 as int),
                            seq![':'] + quoted(ivr[0].1) + inner_tail(ivr, rest),
                        );
                        assert(chars@.skip(j2 + 1) =~= (seq![':'] + quoted(ivr[0].1)
                            + inner_tail(ivr, rest)).skip(1));
                        assert(chars@.skip(j2 + 1) == quoted(ivr[0].1) + inner_tail(ivr, rest));
                        assert(false);
                    }
                }
                return Err(e);
            },
        };
        proof {
            assert(chars@.skip(j2 + 1) =~= chars@.subrange(j2 + 1, j3 as int) + chars@.skip(
                j3 as int,
            ));
        }
        inner.push((k, v));
        proof {
            let iv = view_of_inner(inner@);
            assert(iv.drop_last() =~= iv_old);
            assert(iv.last() == ((k)@, (v)@));
            assert(chars@.subrange(from as int, j3 as int) =~= pre + quoted(k@) + seq![':']
                + quoted(v@)) by {
                assert(chars@.subrange(from as int, j3 as int) =~= chars@.subrange(
                    from as int,
                    j0,
                ) + chars@.subrange(j0, j2 as int) + chars@.subrange(j2 as int, j2 + 1)
                    + chars@.subrange(j2 + 1, j3 as int));
            }
            if iv_old.len() == 0 {
                assert(inner_items(iv) == inner_item(iv[0]));
                assert(chars@.subrange(from as int, j3 as int) =~= seq!['{'] + inner_items(iv));
            } else {
                assert(inner_items(iv) == inner_items(iv_old) + seq![','] + inner_item(
                    iv.last(),
                ));
                assert(chars@.subrange(from as int, j3 as int) =~= seq!['{'] + inner_items(iv));
            }
        }
        if j3 < n && chars[j3] == ',' {
            proof {
                assert(chars@.subrange(from as int, j3 + 1) =~= chars@.subrange(
                    from as int,
                    j3 as int,
                ) + seq![',']);
                assert forall|iv: InnerView, rest: Seq<char>|
                    chars@.skip(from as int) == inner_json(iv) + rest implies exists|
                    ivr2: InnerView,
                |
                    ivr2.len() >= 1 && chars@.skip(j3 + 1) == inner_items(ivr2) + seq!['}']
                        + rest by {
                    let ivr = choose|ivr: InnerView|
                        ivr.len() >= 1 && chars@.skip(j0) == inner_items(ivr) + seq!['}']
                            + rest;
                    lemma_inner_items_head(ivr, rest);
                    lemma_quoted_split(
                        k@,
                        ivr[0].0,
                        chars@.skip(j2 as int),
                        seq![':'] + quoted(ivr[0].1) + inner_tail(ivr, rest),
                    );
                    assert(chars@.skip(j2 + 1) =~= (seq![':'] + quoted(ivr[0].1) + inner_tail(
                        ivr,
                        rest,
                    )).skip(1));
                    assert(chars@.skip(j2 + 1) == quoted(ivr[0].1) + inner_tail(ivr, rest));
                    lemma_quoted_split(v@, ivr[0].1, chars@.skip(j3 as int), inner_tail(ivr, rest));
                    assert(chars@.skip(j3 as int) == inner_tail(ivr, rest));
                    assert(chars@.skip(j3 as int)[0] == chars@[j3 as int]);
                    if ivr.len() == 1 {
                        assert(inner_tail(ivr, rest)[0] == '}');
                        assert(false);
                    }
                    assert(inner_tail(ivr, rest) == seq![','] + inner_items(ivr.drop_first())
                        + seq!['}'] + rest);
                    assert(chars@.skip(j3 + 1) =~= chars@.skip(j3 as int).skip(1));
                    assert(chars@.skip(j3 + 1) == inner_items(ivr.drop_first()) + seq!['}']
                        + rest);
                }
            }
            j = j3 + 1;
        } else if j3 < n && chars[j3] == '}' {
            proof {
                assert(chars@.subrange(from as int, j3 + 1) =~= chars@.subrange(
                    from as int,
                    j3 as int,
                ) + seq!['}']);
            }
            j = j3 + 1;
            break ;
        } else {
            proof {
                if exists|iv: InnerView, rest: Seq<char>|
                    chars@.skip(from as int) == inner_json(iv) + rest {
                    let (iv, rest) = choose|iv: InnerView, rest: Seq<char>|
                        chars@.skip(from as int) == inner_json(iv) + rest;
                    let ivr = choose|ivr: InnerView|
                        ivr.len() >= 1 && chars@.skip(j0) == inner_items(ivr) + seq!['}']
                            + rest;
                    lemma_inner_items_head(ivr, rest);
                    lemma_quoted_split(
                        k@,
                        ivr[0].0,
                        chars@.skip(j2 as int),
                        seq![':'] + quoted(ivr[0].1) + inner_tail(ivr, rest),
                    );
                    assert(chars@.skip(j2 + 1) =~= (seq![':'] + quoted(ivr[0].1) + inner_tail(
                        ivr,
                        rest,
                    )).skip(1));
                    assert(chars@.skip(j2 + 1) == quoted(ivr[0].1) + inner_tail(ivr, rest));
                    lemma_quoted_split(v@, ivr[0].1, chars@.skip(j3 as int), inner_tail(ivr, rest));
                    assert(chars@.skip(j3 as int) == inner_tail(ivr, rest));
                    assert(chars@.skip(j3 as int)[0] == chars@[j3 as int]);
                    assert(chars@.skip(j3 as int).len() >= 1);
                    if ivr.len() == 1 {
                        assert(inner_tail(ivr, rest)[0] == '}');
                    } else {
                        assert(inner_tail(ivr, rest)[0] == ',');
                    }
                    assert(false);
                }
            }
            return Err(
                StorageError::ServiceError {
                    description: "expected a comma or a closing brace".to_owned(),
                },
            );
        }
    }
    Ok((inner, j))
}

/// What follows the first collection member of a non-empty run: the closing
/// brace, or a comma and the remaining members and the closing brace.
pub open spec fn outer_tail(er: MappingView) -> Seq<char> {
    if er.len() == 1 {
        seq!['}']
    } else {
        seq![','] + outer_items(er.drop_first()) + seq!['}']
    }
}

/// A non-empty closed run of collection members starts with its first
/// member, spelled out.
proof fn lemma_outer_items_head(er: MappingView)
    requires
        er.len() >= 1,
    ensures
        outer_items(er) + seq!['}'] == quoted(er[0].0) + (seq![':'] + (inner_json(er[0].1)
            + outer_tail(er))),
{
    if er.len() == 1 {
        assert(outer_items(er) == outer_item(er[0]));
    } else {
        lemma_outer_items_front(er);
    }
    assert(outer_items(er) + seq!['}'] =~= quoted(er[0].0) + (seq![':'] + (inner_json(
        er[0].1,
    ) + outer_tail(er))));
}

/// Parses a whole property-mapping file. On success the input is exactly the
/// serialized form of the returned entries: re-serializing gives the input
/// back, character for character.
#[verifier::rlimit(80)]
pub fn mapping_from_json(chars: &Vec<char>) -> (r: Result<
    Vec<(String, Vec<(String, String)>)>,
    StorageError,
>)
    ensures
        r matches Ok(entries) ==> json_of(view_of_entries(entries@)) == chars@,
        forall|e: MappingView| json_of(e) == chars@ ==> r is Ok,
{
    let n = chars.len();
    if n == 0 || chars[0] != '{' {
        proof {
            if exists|e: MappingView| json_of(e) == chars@ {
                let e = choose|e: MappingView| json_of(e) == chars@;
                assert(json_of(e).len() >= 2);
                assert(json_of(e)[0] == '{');
                assert(false);
            }
        }
        return Err(StorageError::ServiceError { description: "expected an object".to_owned() });
    }
    let mut entries: Vec<(String, Vec<(String, String)>)> = Vec::new();
    let mut j: usize = 1;
    if j < n && chars[j] == '}' {
        if j + 1 != n {
            proof {
                if exists|e: MappingView| json_of(e) == chars@ {
                    let e = choose|e: MappingView| json_of(e) == chars@;
                    if e.len() >= 1 {
                        lemma_outer_items_head(e);
                        assert(chars@.skip(1) =~= outer_items(e) + seq!['}']);
                        assert(chars@.skip(1)[0] == chars@[1]);
                        assert((quoted(e[0].0) + (seq![':'] + (inner_json(e[0].1) + outer_tail(
                            e,
                        ))))[0] == '"');
                        assert(false);
                    }
                    assert(outer_items(e) == Seq::<char>::empty());
                    assert(chars@ =~= seq!['{', '}']);
                    assert(false);
                }
            }
            return Err(
                StorageError::ServiceError {
                    description: "trailing characters after the object".to_owned(),
                },
            );
        }
        proof {
            assert(chars@ =~= seq!['{', '}']);
            assert(json_of(view_of_entries(entries@)) =~= seq!['{', '}']);
        }
        return Ok(entries);
    }
    proof {
        assert forall|e: MappingView| json_of(e) == chars@ implies exists|er: MappingView|
            er.len() >= 1 && chars@.skip(j as int) == outer_items(er) + seq!['}'] by {
            assert(chars@.skip(1) =~= outer_items(e) + seq!['}']);
            if e.len() == 0 {
                assert(outer_items(e) == Seq::<char>::empty());
                assert(chars@.skip(1)[0] == chars@[1]);
                assert((outer_items(e) + seq!['}'])[0] == '}');
                assert(chars@.skip(1).len() >= 1);
                assert(false);
            }
        }
    }
    loop
        invariant_except_break
            entries@.len() == 0 ==> chars@.subrange(0, j as int) =~= seq!['{'],
            entries@.len() > 0 ==> chars@.subrange(0, j as int) =~= seq!['{'] + outer_items(
                view_of_entries(entries@),
            ) + seq![','],
            forall|e: MappingView|
                json_of(e) == chars@ ==> exists|er: MappingView|
                    er.len() >= 1 && chars@.skip(j as int) == outer_items(er) + seq!['}'],
        invariant
            1 <= j <= n,
            n == chars@.len(),
            chars@[0] == '{',
        ensures
            j <= n,
            chars@.subrange(0, j as int) =~= seq!['{'] + outer_items(view_of_entries(entries@))
                + seq!['}'],
        decreases n - j,
    {
        let ghost pre = chars@.subrange(0, j as int);
        let ghost ev_old = view_of_entries(entries@);
        let ghost j0 = j as int;
        let (c, j2) = match parse_string(chars, j) {
            Ok(v) => v,
            Err(e2) => {
                proof {
                    if exists|e: MappingView| json_of(e) == chars@ {
                        let e = choose|e: MappingView| json_of(e) == chars@;
                        let er = choose|er: MappingView|
                            er.len() >= 1 && chars@.skip(j0) == outer_items(er) + seq!['}'];
                        lemma_outer_items_head(er);
                        assert(chars@.skip(j0) == quoted(er[0].0) + (seq![':'] + (inner_json(
                            er[0].1,
                        ) + outer_tail(er))));
                        assert(false);
                    }
                }
                return Err(e2);
            },
        };
        proof {
            assert(chars@.skip(j0) =~= chars@.subrange(j0, j2 as int) + chars@.skip(
                j2 as int,
            ));
        }
        if j2 >= n || chars[j2] != ':' {
            proof {
                if exists|e: MappingView| json_of(e) == chars@ {
                    let e = choose|e: MappingView| json_of(e) == chars@;
                    let er = choose|er: MappingView|
                        er.len() >= 1 && chars@.skip(j0) == outer_items(er) + seq!['}'];
                    lemma_outer_items_head(er);
                    lemma_quoted_split(
                        c@,
                        er[0].0,
                        chars@.skip(j2 as int),
                        seq![':'] + (inner_json(er[0].1) + outer_tail(er)),
                    );
                    assert(chars@.skip(j2 as int)[0] == chars@[j2 as int]);
                    assert((seq![':'] + (inner_json(er[0].1) + outer_tail(er)))[0] == ':');
                    assert(false);
                }
            }
            return Err(StorageError::ServiceError { description: "expected a colon".to_owned() });
        }
        proof {
            assert(chars@.skip(j2 + 1) =~= chars@.skip(j2 as int).skip(1));
        }
        let (inner, j3) = match parse_inner(chars, j2 + 1) {
            Ok(v) => v,
            Err(e2) => {
                proof {
                    if exists|e: MappingView| json_of(e) == chars@ {
                        let e = choose|e: MappingView| json_of(e) == chars@;
                        let er = choose|er: MappingView|
                            er.len() >= 1 && chars@.skip(j0) == outer_items(er) + seq!['}'];
                        lemma_outer_items_head(er);
                        lemma_quoted_split(
                            c@,
                            er[0].0,
                            chars@.skip(j2 as int),
                            seq![':'] + (inner_json(er[0].1) + outer_tail(er)),
                        );
                        assert(chars@.skip(j2 + 1) =~= (seq![':'] + (inner_json(er[0].1)
                            + outer_tail(er))).skip(1));
                        assert(chars@.skip(j2 + 1) == inner_json(er[0].1) + outer_tail(er));
                        assert(false);
                    }
                }
                return Err(e2);
            },
        };
        proof {
            assert(chars@.skip(j2 + 1) =~= chars@.subrange(j2 + 1, j3 as int) + chars@.skip(
                j3 as int,
            ));
        }
        entries.push((c, inner));
        proof {
            let ev = view_of_entries(entries@);
            assert(ev.drop_last() =~= ev_old);
            assert(ev.last() == ((entries@.last().0)@, view_of_inner(entries@.last().1@)));
            assert(chars@.subrange(0, j3 as int) =~= pre + quoted(ev.last().0) + seq![':']
                + inner_json(ev.last().1)) by {
                assert(chars@.subrange(0, j3 as int) =~= chars@.subrange(0, j0)
                    + chars@.subrange(j0, j2 as int) + chars@.subrange(j2 as int, j2 + 1)
                    + chars@.subrange(j2 + 1, j3 as int));
            }
            if ev_old.len() == 0 {
                assert(outer_items(ev) == outer_item(ev[0]));
                assert(chars@.subrange(0, j3 as int) =~= seq!['{'] + outer_items(ev));
            } else {
                assert(outer_items(ev) == outer_items(ev_old) + seq![','] + outer_item(
                    ev.last(),
                ));
                assert(chars@.subrange(0, j3 as int) =~= seq!['{'] + outer_items(ev));
            }
        }
        if j3 < n && chars[j3] == ',' {
            proof {
                assert(chars@.subrange(0, j3 + 1) =~= chars@.subrange(0, j3 as int) + seq![',']);
                assert forall|e: MappingView| json_of(e) == chars@ implies exists|
                    er2: MappingView,
                |
                    er2.len() >= 1 && chars@.skip(j3 + 1) == outer_items(er2) + seq!['}'] by {
                    let er = choose|er: MappingView|
                        er.len() >= 1 && chars@.skip(j0) == outer_items(er) + seq!['}'];
                    lemma_outer_items_head(er);
                    lemma_quoted_split(
                        c@,
                        er[0].0,
                        chars@.skip(j2 as int),
                        seq![':'] + (inner_json(er[0].1) + outer_tail(er)),
                    );
                    assert(chars@.skip(j2 + 1) =~= (seq![':'] + (inner_json(er[0].1)
                        + outer_tail(er))).skip(1));
                    assert(chars@.skip(j2 + 1) == inner_json(er[0].1) + outer_tail(er));
                    lemma_inner_json_split(
                        view_of_inner(inner@),
                        er[0].1,
                        chars@.skip(j3 as int),
                        outer_tail(er),
                    );
                    assert(chars@.skip(j3 as int) == outer_tail(er));
                    assert(chars@.skip(j3 as int)[0] == chars@[j3 as int]);
                    if er.len() == 1 {
                        assert(outer_tail(er)[0] == '}');
                        assert(false);
                    }
                    assert(outer_tail(er) == seq![','] + outer_items(er.drop_first())
                        + seq!['}']);
                    assert(chars@.skip(j3 + 1) =~= chars@.skip(j3 as int).skip(1));
                    assert(chars@.skip(j3 + 1) == outer_items(er.drop_first()) + seq!['}']);
                }
            }
            j = j3 + 1;
        } else if j3 < n && chars[j3] == '}' {
            proof {
                assert(chars@.subrange(0, j3 + 1) =~= chars@.subrange(0, j3 as int) + seq!['}']);
            }
            j = j3 + 1;
            break ;
        } else {
            proof {
                if exists|e: MappingView| json_of(e) == chars@ {
                    let e = choose|e: MappingView| json_of(e) == chars@;
                    let er = choose|er: MappingView|
                        er.len() >= 1 && chars@.skip(j0) == outer_items(er) + seq!['}'];
                    lemma_outer_items_head(er);
                    lemma_quoted_split(
                        c@,
                        er[0].0,
                        chars@.skip(j2 as int),
                        seq![':'] + (inner_json(er[0].1) + outer_tail(er)),
                    );
                    assert(chars@.skip(j2 + 1) =~= (seq![':'] + (inner_json(er[0].1)
                        + outer_tail(er))).skip(1));
                    assert(chars@.skip(j2 + 1) == inner_json(er[0].1) + outer_tail(er));
                    lemma_inner_json_split(
                        view_of_inner(inner@),
                        er[0].1,
                        chars@.skip(j3 as int),
                        outer_tail(er),
                    );
                    assert(chars@.skip(j3 as int) == outer_tail(er));
                    assert(chars@.skip(j3 as int)[0] == chars@[j3 as int]);
                    assert(chars@.skip(j3 as int).len() >= 1);
                    if er.len() == 1 {
                        assert(outer_tail(er)[0] == '}');
                    } else {
                        assert(outer_tail(er)[0] == ',');
                    }
                    assert(false);
                }
            }
            return Err(
                StorageError::ServiceError {
                    description: "expected a comma or a closing brace".to_owned(),
                },
            );
        }
    }
    if j != n {
        proof {
            if exists|e: MappingView| json_of(e) == chars@ {
                let e = choose|e: MappingView| json_of(e) == chars@;
                assert(chars@ =~= chars@.subrange(0, j as int) + chars@.skip(j as int));
                assert(chars@.subrange(0, j as int) == json_of(view_of_entries(entries@)));
                assert(chars@.skip(1) =~= outer_items(e) + seq!['}'] + Seq::<char>::empty());
                assert(chars@.subrange(0, j as int).skip(1) + chars@.skip(j as int)
                    =~= chars@.skip(1));
                assert(chars@.subrange(0, j as int).skip(1) =~= outer_items(
                    view_of_entries(entries@),
                ) + seq!['}']);
                assert(outer_items(view_of_entries(entries@)) + seq!['}'] + chars@.skip(
                    j as int,
                ) =~= outer_items(e) + seq!['}'] + Seq::<char>::empty());
                lemma_outer_items_split(
                    view_of_entries(entries@),
                    e,
                    chars@.skip(j as int),
                    Seq::empty(),
                );
                assert(chars@.skip(j as int) =~= Seq::<char>::empty());
                assert(chars@.skip(j as int).len() == n - j);
                assert(false);
            }
        }
        return Err(
            StorageError::ServiceError {
                description: "trailing characters after the object".to_owned(),
            },
        );
    }
    proof {
        assert(chars@.subrange(0, n as int) =~= chars@);
        assert(chars@ =~= json_of(view_of_entries(entries@)));
    }
    Ok(entries)
}


/// A non-empty escaped string never begins with a bare quote.
proof fn lemma_esc_first(b: Seq<char>)
    requires
        b.len() > 0,
    ensures
        esc(b).len() > 0,
        esc(b)[0] != '"',
{
    if b[0] == '"' || b[0] == '\\' {
        assert(esc(b)[0] == '\\');
    } else {
        assert(esc(b)[0] == b[0]);
    }
}

/// The closing quote of a literal is unambiguous: equal escaped-and-closed
/// prefixes come from equal strings, and the continuations agree.
proof fn lemma_esc_split(a: Seq<char>, b: Seq<char>, x: Seq<char>, y: Seq<char>)
    requires
        esc(a) + seq!['"'] + x == esc(b) + seq!['"'] + y,
    ensures
        a == b,
        x == y,
    decreases a.len(),
{
    let lhs = esc(a) + seq!['"'] + x;
    let rhs = esc(b) + seq!['"'] + y;
    if a.len() == 0 && b.len() == 0 {
        assert(lhs.len() == 1 + x.len());
        assert forall|i: int| 0 <= i < x.len() implies x[i] == y[i] by {
            assert(lhs[i + 1] == x[i]);
            assert(rhs[i + 1] == y[i]);
        }
        assert(x =~= y);
    } else if a.len() == 0 {
        lemma_esc_first(b);
        assert(lhs[0] == '"');
        assert(rhs[0] == esc(b)[0]);
        assert(false);
    } else if b.len() == 0 {
        lemma_esc_first(a);
        assert(rhs[0] == '"');
        assert(lhs[0] == esc(a)[0]);
        assert(false);
    } else {
        let a0 = a[0];
        let b0 = b[0];
        let ea = a0 == '"' || a0 == '\\';
        let eb = b0 == '"' || b0 == '\\';
        if ea && eb {
            assert(esc(a) == seq!['\\', a0] + esc(a.drop_first()));
            assert(esc(b) == seq!['\\', b0] + esc(b.drop_first()));
            assert(lhs[1] == a0);
            assert(rhs[1] == b0);
            assert(a0 == b0);
            assert(lhs.skip(2) =~= esc(a.drop_first()) + seq!['"'] + x);
            assert(rhs.skip(2) =~= esc(b.drop_first()) + seq!['"'] + y);
            assert(lhs.skip(2) == rhs.skip(2));
            lemma_esc_split(a.drop_first(), b.drop_first(), x, y);
            assert(a.len() == b.len());
            assert forall|i: int| 0 <= i < a.len() implies a[i] == b[i] by {
                if i > 0 {
                    assert(a.drop_first()[i - 1] == b.drop_first()[i - 1]);
                }
            }
            assert(a =~= b);
        } else if ea && !eb {
            assert(esc(a) == seq!['\\', a0] + esc(a.drop_first()));
            assert(esc(b) == seq![b0] + esc(b.drop_first()));
            assert(lhs[0] == '\\');
            assert(rhs[0] == b0);
            assert(false);
        } else if !ea && eb {
            assert(esc(a) == seq![a0] + esc(a.drop_first()));
            assert(esc(b) == seq!['\\', b0] + esc(b.drop_first()));
            assert(lhs[0] == a0);
            assert(rhs[0] == '\\');
            assert(false);
        } else {
            assert(esc(a) == seq![a0] + esc(a.drop_first()));
            assert(esc(b) == seq![b0] + esc(b.drop_first()));
            assert(lhs[0] == a0);
            assert(rhs[0] == b0);
            assert(a0 == b0);
            assert(lhs.skip(1) =~= esc(a.drop_first()) + seq!['"'] + x);
            assert(rhs.skip(1) =~= esc(b.drop_first()) + seq!['"'] + y);
            assert(lhs.skip(1) == rhs.skip(1));
            lemma_esc_split(a.drop_first(), b.drop_first(), x, y);
            assert(a.len() == b.len());
            assert forall|i: int| 0 <= i < a.len() implies a[i] == b[i] by {
                if i > 0 {
                    assert(a.drop_first()[i - 1] == b.drop_first()[i - 1]);
                }
            }
            assert(a =~= b);
        }
    }
}

/// A quoted literal determines its string and its continuation.
proof fn lemma_quoted_split(a: Seq<char>, b: Seq<char>, x: Seq<char>, y: Seq<char>)
    requires
        quoted(a) + x == quoted(b) + y,
    ensures
        a == b,
        x == y,
{
    let lhs = quoted(a) + x;
    let rhs = quoted(b) + y;
    assert(lhs.skip(1) =~= esc(a) + seq!['"'] + x);
    assert(rhs.skip(1) =~= esc(b) + seq!['"'] + y);
    assert(lhs.skip(1) == rhs.skip(1));
    lemma_esc_split(a, b, x, y);
}

/// The comma-join taken from the front.
proof fn lemma_inner_items_front(inner: InnerView)
    requires
        inner.len() >= 2,
    ensures
        inner_items(inner) == inner_item(inner[0]) + seq![','] + inner_items(
            inner.drop_first(),
        ),
    decreases inner.len(),
{
    if inner.len() == 2 {
        assert(inner.drop_last()[0] == inner[0]);
        assert(inner.drop_last().len() == 1);
        assert(inner.drop_first().len() == 1);
        assert(inner.drop_first()[0] == inner[1]);
        assert(inner_items(inner) =~= inner_item(inner[0]) + seq![','] + inner_items(
            inner.drop_first(),
        ));
    } else {
        lemma_inner_items_front(inner.drop_last());
        assert(inner.drop_last()[0] == inner[0]);
        assert(inner.drop_last().drop_first() =~= inner.drop_first().drop_last());
        assert(inner_items(inner.drop_last().drop_first()) == inner_items(
            inner.drop_first().drop_last(),
        ));
        assert(inner.drop_first().last() == inner.last());
        assert(inner.drop_first().len() >= 2);
        assert(inner_items(inner.drop_first()) == inner_items(inner.drop_first().drop_last())
            + seq![','] + inner_item(inner.drop_first().last()));
        assert(inner_items(inner) == inner_items(inner.drop_last()) + seq![','] + inner_item(
            inner.last(),
        ));
        assert(inner_items(inner.drop_last()) == inner_item(inner[0]) + seq![',']
            + inner_items(inner.drop_last().drop_first()));
        assert(inner_items(inner) =~= inner_item(inner[0]) + seq![','] + inner_items(
            inner.drop_first(),
        ));
    }
}

/// The comma-join taken from the front, one level up.
proof fn lemma_outer_items_front(entries: MappingView)
    requires
        entries.len() >= 2,
    ensures
        outer_items(entries) == outer_item(entries[0]) + seq![','] + outer_items(
            entries.drop_first(),
        ),
    decreases entries.len(),
{
    if entries.len() == 2 {
        assert(entries.drop_last()[0] == entries[0]);
        assert(entries.drop_first()[0] == entries[1]);
        assert(outer_items(entries) =~= outer_item(entries[0]) + seq![','] + outer_items(
            entries.drop_first(),
        ));
    } else {
        lemma_outer_items_front(entries.drop_last());
        assert(entries.drop_last()[0] == entries[0]);
        assert(entries.drop_last().drop_first() =~= entries.drop_first().drop_last());
        assert(outer_items(entries.drop_last().drop_first()) == outer_items(
            entries.drop_first().drop_last(),
        ));
        assert(entries.drop_first().last() == entries.last());
        assert(entries.drop_first().len() >= 2);
        assert(outer_items(entries.drop_first()) == outer_items(
            entries.drop_first().drop_last(),
        ) + seq![','] + outer_item(entries.drop_first().last()));
        assert(outer_items(entries) == outer_items(entries.drop_last()) + seq![',']
            + outer_item(entries.last()));
        assert(outer_items(entries.drop_last()) == outer_item(entries[0]) + seq![',']
            + outer_items(entries.drop_last().drop_first()));
        assert(outer_items(entries) =~= outer_item(entries[0]) + seq![','] + outer_items(
            entries.drop_first(),
        ));
    }
}

/// A closed run of members determines the members and the continuation.
#[verifier::rlimit(100)]
proof fn lemma_inner_items_split(i1: InnerView, i2: InnerView, r1: Seq<char>, r2: Seq<char>)
    requires
        inner_items(i1) + seq!['}'] + r1 == inner_items(i2) + seq!['}'] + r2,
    ensures
        i1 == i2,
        r1 == r2,
    decreases i1.len(),
{
    let lhs = inner_items(i1) + seq!['}'] + r1;
    let rhs = inner_items(i2) + seq!['}'] + r2;
    if i1.len() == 0 && i2.len() == 0 {
        assert forall|i: int| 0 <= i < r1.len() implies r1[i] == r2[i] by {
            assert(lhs[i + 1] == r1[i]);
            assert(rhs[i + 1] == r2[i]);
        }
        assert(r1 =~= r2);
        assert(i1 =~= i2);
    } else if i1.len() == 0 {
        assert(lhs[0] == '}');
        if i2.len() >= 2 {
            lemma_inner_items_front(i2);
        }
        assert(rhs[0] == quoted(i2[0].0)[0]);
        assert(quoted(i2[0].0)[0] == '"');
        assert(false);
    } else if i2.len() == 0 {
        assert(rhs[0] == '}');
        if i1.len() >= 2 {
            lemma_inner_items_front(i1);
        }
        assert(lhs[0] == quoted(i1[0].0)[0]);
        assert(quoted(i1[0].0)[0] == '"');
        assert(false);
    } else {
        // Both runs start with a member; the member splits at its quotes.
        let t1: Seq<char> = if i1.len() == 1 {
            seq!['}'] + r1
        } else {
            seq![','] + inner_items(i1.drop_first()) + seq!['}'] + r1
        };
        let t2: Seq<char> = if i2.len() == 1 {
            seq!['}'] + r2
        } else {
            seq![','] + inner_items(i2.drop_first()) + seq!['}'] + r2
        };
        if i1.len() >= 2 {
            lemma_inner_items_front(i1);
        }
        if i2.len() >= 2 {
            lemma_inner_items_front(i2);
        }
        assert(lhs =~= quoted(i1[0].0) + (seq![':'] + quoted(i1[0].1) + t1));
        assert(rhs =~= quoted(i2[0].0) + (seq![':'] + quoted(i2[0].1) + t2));
        lemma_quoted_split(
            i1[0].0,
            i2[0].0,
            seq![':'] + quoted(i1[0].1) + t1,
            seq![':'] + quoted(i2[0].1) + t2,
        );
        let u1 = seq![':'] + quoted(i1[0].1) + t1;
        let u2 = seq![':'] + quoted(i2[0].1) + t2;
        assert(u1.skip(1) =~= quoted(i1[0].1) + t1);
        assert(u2.skip(1) =~= quoted(i2[0].1) + t2);
        assert(u1.skip(1) == u2.skip(1));
        lemma_quoted_split(i1[0].1, i2[0].1, t1, t2);
        if i1.len() == 1 && i2.len() == 1 {
            assert forall|i: int| 0 <= i < r1.len() implies r1[i] == r2[i] by {
                assert(t1[i + 1] == r1[i]);
                assert(t2[i + 1] == r2[i]);
            }
            assert(r1 =~= r2);
            assert(i1[0].0 == i2[0].0 && i1[0].1 == i2[0].1);
            assert(i1[0] == i2[0]);
            assert(i1 =~= i2);
        } else if i1.len() == 1 {
            assert(t1[0] == '}');
            assert(t2[0] == ',');
            assert(false);
        } else if i2.len() == 1 {
            assert(t1[0] == ',');
            assert(t2[0] == '}');
            assert(false);
        } else {
            assert(t1.skip(1) =~= inner_items(i1.drop_first()) + seq!['}'] + r1);
            assert(t2.skip(1) =~= inner_items(i2.drop_first()) + seq!['}'] + r2);
            assert(t1.skip(1) == t2.skip(1));
            lemma_inner_items_split(i1.drop_first(), i2.drop_first(), r1, r2);
            assert(i1[0].0 == i2[0].0 && i1[0].1 == i2[0].1);
            assert(i1[0] == i2[0]);
            assert(i1.len() == i2.len());
            assert forall|i: int| 0 <= i < i1.len() implies i1[i] == i2[i] by {
                if i > 0 {
                    assert(i1.drop_first()[i - 1] == i2.drop_first()[i - 1]);
                }
            }
            assert(i1 =~= i2);
        }
    }
}

/// One collection member determines its name, its properties and the
/// continuation.
#[verifier::rlimit(100)]
proof fn lemma_outer_member_split(
    h1: (Seq<char>, InnerView),
    h2: (Seq<char>, InnerView),
    t1: Seq<char>,
    t2: Seq<char>,
)
    requires
        outer_item(h1) + t1 == outer_item(h2) + t2,
    ensures
        h1 == h2,
        t1 == t2,
{
    let lhs = outer_item(h1) + t1;
    let rhs = outer_item(h2) + t2;
    assert(lhs =~= quoted(h1.0) + (seq![':', '{'] + inner_items(h1.1) + seq!['}'] + t1));
    assert(rhs =~= quoted(h2.0) + (seq![':', '{'] + inner_items(h2.1) + seq!['}'] + t2));
    lemma_quoted_split(
        h1.0,
        h2.0,
        seq![':', '{'] + inner_items(h1.1) + seq!['}'] + t1,
        seq![':', '{'] + inner_items(h2.1) + seq!['}'] + t2,
    );
    let u1 = seq![':', '{'] + inner_items(h1.1) + seq!['}'] + t1;
    let u2 = seq![':', '{'] + inner_items(h2.1) + seq!['}'] + t2;
    assert(u1.skip(2) =~= inner_items(h1.1) + seq!['}'] + t1);
    assert(u2.skip(2) =~= inner_items(h2.1) + seq!['}'] + t2);
    assert(u1.skip(2) == u2.skip(2));
    lemma_inner_items_split(h1.1, h2.1, t1, t2);
    assert(h1 == h2);
}

/// A closed run of collection members determines the members and the
/// continuation.
#[verifier::rlimit(100)]
proof fn lemma_outer_items_split(e1: MappingView, e2: MappingView, r1: Seq<char>, r2: Seq<char>)
    requires
        outer_items(e1) + seq!['}'] + r1 == outer_items(e2) + seq!['}'] + r2,
    ensures
        e1 == e2,
        r1 == r2,
    decreases e1.len(),
{
    let lhs = outer_items(e1) + seq!['}'] + r1;
    let rhs = outer_items(e2) + seq!['}'] + r2;
    if e1.len() == 0 && e2.len() == 0 {
        assert(lhs =~= seq!['}'] + r1);
        assert(rhs =~= seq!['}'] + r2);
        assert(seq!['}'] + r1 == seq!['}'] + r2);
        assert(r1 =~= (seq!['}'] + r1).skip(1));
        assert(r2 =~= (seq!['}'] + r2).skip(1));
        assert(r1 == r2);
        assert(e1 =~= e2);
    } else if e1.len() == 0 {
        assert(lhs[0] == '}');
        if e2.len() >= 2 {
            lemma_outer_items_front(e2);
        }
        assert(rhs[0] == quoted(e2[0].0)[0]);
        assert(quoted(e2[0].0)[0] == '"');
        assert(false);
    } else if e2.len() == 0 {
        assert(rhs[0] == '}');
        if e1.len() >= 2 {
            lemma_outer_items_front(e1);
        }
        assert(lhs[0] == quoted(e1[0].0)[0]);
        assert(quoted(e1[0].0)[0] == '"');
        assert(false);
    } else {
        let t1: Seq<char> = if e1.len() == 1 {
            seq!['}'] + r1
        } else {
            seq![','] + outer_items(e1.drop_first()) + seq!['}'] + r1
        };
        let t2: Seq<char> = if e2.len() == 1 {
            seq!['}'] + r2
        } else {
            seq![','] + outer_items(e2.drop_first()) + seq!['}'] + r2
        };
        if e1.len() >= 2 {
            lemma_outer_items_front(e1);
        }
        if e2.len() >= 2 {
            lemma_outer_items_front(e2);
        }
        assert(lhs =~= outer_item(e1[0]) + t1);
        assert(rhs =~= outer_item(e2[0]) + t2);
        lemma_outer_member_split(e1[0], e2[0], t1, t2);
        if e1.len() == 1 && e2.len() == 1 {
            assert forall|i: int| 0 <= i < r1.len() implies r1[i] == r2[i] by {
                assert(t1[i + 1] == r1[i]);
                assert(t2[i + 1] == r2[i]);
            }
            assert(r1 =~= r2);
            assert(e1 =~= e2);
        } else if e1.len() == 1 {
            assert(t1[0] == '}');
            assert(t2[0] == ',');
            assert(false);
        } else if e2.len() == 1 {
            assert(t1[0] == ',');
            assert(t2[0] == '}');
            assert(false);
        } else {
            assert(t1.skip(1) =~= outer_items(e1.drop_first()) + seq!['}'] + r1);
            assert(t2.skip(1) =~= outer_items(e2.drop_first()) + seq!['}'] + r2);
            assert(t1.skip(1) == t2.skip(1));
            lemma_outer_items_split(e1.drop_first(), e2.drop_first(), r1, r2);
            assert(e1.len() == e2.len());
            assert forall|i: int| 0 <= i < e1.len() implies e1[i] == e2[i] by {
                if i > 0 {
                    assert(e1.drop_first()[i - 1] == e2.drop_first()[i - 1]);
                }
            }
            assert(e1 =~= e2);
        }
    }
}

/// The serialized form is injective: reading a saved mapping back can only
/// yield that mapping. Together with the contracts of `mapping_to_json` and
/// `mapping_from_json` this is the persistence round trip: whatever a load
/// of a saved mapping returns, it is the mapping that was saved.
pub proof fn lemma_json_of_injective(e1: MappingView, e2: MappingView)
    requires
        json_of(e1) == json_of(e2),
    ensures
        e1 == e2,
{
    let lhs = json_of(e1);
    let rhs = json_of(e2);
    assert(lhs.skip(1) =~= outer_items(e1) + seq!['}'] + Seq::<char>::empty());
    assert(rhs.skip(1) =~= outer_items(e2) + seq!['}'] + Seq::<char>::empty());
    assert(lhs.skip(1) == rhs.skip(1));
    lemma_outer_items_split(e1, e2, Seq::empty(), Seq::empty());
}

} // verus!
