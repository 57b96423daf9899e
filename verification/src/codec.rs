//! The cache-file codec.
//!
//! The catalog is persisted as a JSON array of records in one fixed shape:
//! every record carries the six fields in a fixed order, each value a quoted
//! string with `"`, `\`, and the common control characters escaped. The
//! decoder accepts exactly that shape and rejects everything else, so a
//! malformed cache file surfaces as a decode error.

use vstd::prelude::*;
use crate::license::License;
use crate::license::LicenseView;
use crate::text::chars_to_string;
use crate::text::str_to_chars;

verus! {

/// The cache file's text is not exactly one encoded catalog.
#[derive(Clone, Copy, PartialEq, Eq, Debug)]
pub struct DecodeError {}

/// How one character of a field is written inside a quoted string.
pub open spec fn esc_char(c: char) -> Seq<char> {
    if c == '"' {
        seq!['\\', '"']
    } else if c == '\\' {
        seq!['\\', '\\']
    } else if c == '\n' {
        seq!['\\', 'n']
    } else if c == '\r' {
        seq!['\\', 'r']
    } else if c == '\t' {
        seq!['\\', 't']
    } else {
        seq![c]
    }
}

/// The character an escape code stands for, if the code is recognized.
pub open spec fn unesc_char(c: char) -> Option<char> {
    if c == '"' {
        Some('"')
    } else if c == '\\' {
        Some('\\')
    } else if c == 'n' {
        Some('\n')
    } else if c == 'r' {
        Some('\r')
    } else if c == 't' {
        Some('\t')
    } else {
        None
    }
}

/// A field's text with every character escaped as needed.
pub open spec fn esc(s: Seq<char>) -> Seq<char>
    decreases s.len(),
{
    if s.len() == 0 {
        Seq::empty()
    } else {
        esc_char(s[0]) + esc(s.drop_first())
    }
}

/// A quoted string's tail: the escaped text and the closing quote. The
/// opening quote belongs to the preceding field label.
pub open spec fn enc_str(s: Seq<char>) -> Seq<char> {
    esc(s) + seq!['"']
}

pub open spec fn lit_key() -> Seq<char> {
    "{\"key\":\""@
}

pub open spec fn lit_name() -> Seq<char> {
    ",\"name\":\""@
}

pub open spec fn lit_url() -> Seq<char> {
    ",\"url\":\""@
}

pub open spec fn lit_description() -> Seq<char> {
    ",\"description\":\""@
}

pub open spec fn lit_implementation() -> Seq<char> {
    ",\"implementation\":\""@
}

pub open spec fn lit_body() -> Seq<char> {
    ",\"body\":\""@
}

/// One encoded record.
pub open spec fn enc_record(l: LicenseView) -> Seq<char> {
    lit_key() + enc_str(l.key) + lit_name() + enc_str(l.name) + lit_url() + enc_str(l.url)
        + lit_description() + enc_str(l.description) + lit_implementation()
        + enc_str(l.implementation) + lit_body() + enc_str(l.body) + seq!['}']
}

/// One or more encoded records, comma-separated, with the closing bracket of
/// the array.
pub open spec fn enc_records(ls: Seq<LicenseView>) -> Seq<char>
    decreases ls.len(),
{
    if ls.len() <= 1 {
        enc_record(ls[0]) + seq![']']
    } else {
        enc_record(ls[0]) + seq![','] + enc_records(ls.drop_first())
    }
}

/// The whole encoded catalog.
pub open spec fn enc_list(ls: Seq<LicenseView>) -> Seq<char> {
    if ls.len() == 0 {
        seq!['[', ']']
    } else {
        seq!['['] + enc_records(ls)
    }
}

/// Whether `p` occurs in `s` starting at position `i`.
pub open spec fn lit_at(s: Seq<char>, i: int, p: Seq<char>) -> bool {
    0 <= i && i + p.len() <= s.len() && s.subrange(i, i + p.len()) == p
}

/// Parses a quoted string's tail starting at `i`: the decoded text and the
/// position just past the closing quote.
pub open spec fn dec_str(s: Seq<char>, i: int) -> Option<(Seq<char>, int)>
    decreases s.len() - i,
{
    if i < 0 || i >= s.len() {
        None
    } else if s[i] == '"' {
        Some((Seq::empty(), i + 1))
    } else if s[i] == '\\' {
        if i + 1 >= s.len() {
            None
        } else {
            match unesc_char(s[i + 1]) {
                None => None,
                Some(c) => match dec_str(s, i + 2) {
                    None => None,
                    Some((t, j)) => Some((seq![c] + t, j)),
                },
            }
        }
    } else {
        match dec_str(s, i + 1) {
            None => None,
            Some((t, j)) => Some((seq![s[i]] + t, j)),
        }
    }
}

/// Parses one record starting at `i`: the record and the position just past
/// its closing brace.
pub open spec fn dec_record(s: Seq<char>, i: int) -> Option<(LicenseView, int)> {
    if !lit_at(s, i, lit_key()) {
        None
    } else {
        match dec_str(s, i + lit_key().len()) {
            None => None,
            Some((key, i1)) => if !lit_at(s, i1, lit_name()) {
                None
            } else {
                match dec_str(s, i1 + lit_name().len()) {
                    None => None,
                    Some((name, i2)) => if !lit_at(s, i2, lit_url()) {
                        None
                    } else {
                        match dec_str(s, i2 + lit_url().len()) {
                            None => None,
                            Some((url, i3)) => if !lit_at(s, i3, lit_description()) {
                                None
                            } else {
                                match dec_str(s, i3 + lit_description().len()) {
                                    None => None,
                                    Some((description, i4)) => if !lit_at(
                                        s,
                                        i4,
                                        lit_implementation(),
                                    ) {
                                        None
                                    } else {
                                        match dec_str(s, i4 + lit_implementation().len()) {
                                            None => None,
                                            Some((implementation, i5)) => if !lit_at(
                                                s,
                                                i5,
                                                lit_body(),
                                            ) {
                                                None
                                            } else {
                                                match dec_str(s, i5 + lit_body().len()) {
                                                    None => None,
                                                    Some((body, i6)) => if i6 < s.len() && s[i6]
                                                        == '}' {
                                                        Some(
                                                            (
                                                                LicenseView {
                                                                    key,
                                                                    name,
                                                                    url,
                                                                    description,
                                                                    implementation,
                                                                    body,
                                                                },
                                                                i6 + 1,
                                                            ),
                                                        )
                                                    } else {
                                                        None
                                                    },
                                                }
                                            },
                                        }
                                    },
                                }
                            },
                        }
                    },
                }
            },
        }
    }
}

/// Parses one or more comma-separated records starting at `i`, through the
/// closing bracket of the array: the records and the position just past that
/// bracket.
pub open spec fn dec_records(s: Seq<char>, i: int) -> Option<(Seq<LicenseView>, int)>
    decreases s.len() - i,
{
    match dec_record(s, i) {
        None => None,
        Some((l, j)) => if j > i && j < s.len() && s[j] == ',' {
            match dec_records(s, j + 1) {
                None => None,
                Some((ls, k)) => Some((seq![l] + ls, k)),
            }
        } else if j < s.len() && s[j] == ']' {
            Some((seq![l], j + 1))
        } else {
            None
        },
    }
}

/// Parses a whole catalog: the records, provided the text is exactly one
/// encoded catalog and nothing more.
pub open spec fn dec_list(s: Seq<char>) -> Option<Seq<LicenseView>> {
    if s.len() == 2 && s[0] == '[' && s[1] == ']' {
        Some(Seq::empty())
    } else if s.len() > 0 && s[0] == '[' {
        match dec_records(s, 1) {
            None => None,
            Some((ls, k)) => if k == s.len() {
                Some(ls)
            } else {
                None
            },
        }
    } else {
        None
    }
}

/// The models of a list of records.
pub open spec fn seq_views(s: Seq<License>) -> Seq<LicenseView> {
    s.map_values(|l: License| l@)
}

/// An occurrence of a concatenation is an occurrence of each part in turn.
pub proof fn lemma_lit_at_cat(s: Seq<char>, i: int, a: Seq<char>, b: Seq<char>)
    requires
        lit_at(s, i, a + b),
    ensures
        lit_at(s, i, a),
        lit_at(s, i + a.len(), b),
{
    let ab = a + b;
    assert(forall|k: int| 0 <= k < ab.len() ==> s[i + k] == #[trigger] ab[k]) by {
        assert(forall|k: int|
            0 <= k < ab.len() ==> #[trigger] s.subrange(i, i + ab.len())[k] == s[i + k]);
    }
    assert(s.subrange(i, i + a.len()) =~= a);
    assert forall|m: int| 0 <= m < b.len() implies s[i + a.len() + m] == b[m] by {
        assert(ab[a.len() + m] == b[m]);
        assert(s[i + (a.len() + m)] == ab[a.len() + m]);
    }
    assert(s.subrange(i + a.len(), i + a.len() + b.len()) =~= b);
}

/// Decoding a quoted string's tail undoes encoding it: wherever `enc_str(f)`
/// occurs, the string parser returns exactly `f` and stops just past the
/// closing quote.
pub proof fn lemma_dec_str_enc(s: Seq<char>, i: int, f: Seq<char>)
    requires
        lit_at(s, i, enc_str(f)),
    ensures
        dec_str(s, i) == Some((f, i + enc_str(f).len())),
    decreases f.len(),
{
    if f.len() == 0 {
        assert(enc_str(f) =~= seq!['"']);
        assert(s.subrange(i, i + 1)[0] == s[i]);
        assert(s[i] == '"');
        assert(dec_str(s, i) == Some((Seq::<char>::empty(), i + 1)));
        assert(f =~= Seq::<char>::empty());
    } else {
        let c = f[0];
        let f1 = f.drop_first();
        assert(esc(f) == esc_char(c) + esc(f1));
        assert(enc_str(f) =~= esc_char(c) + enc_str(f1));
        lemma_lit_at_cat(s, i, esc_char(c), enc_str(f1));
        let k = esc_char(c).len() as int;
        lemma_dec_str_enc(s, i + k, f1);
        if c == '"' || c == '\\' || c == '\n' || c == '\r' || c == '\t' {
            assert(esc_char(c).len() == 2);
            assert(s.subrange(i, i + 2)[0] == s[i]);
            assert(s.subrange(i, i + 2)[1] == s[i + 1]);
            assert(s[i] == '\\');
            assert(s[i + 1] == esc_char(c)[1]);
            assert(unesc_char(esc_char(c)[1]) == Some(c));
            assert(dec_str(s, i) == Some((seq![c] + f1, i + k + enc_str(f1).len())));
        } else {
            assert(esc_char(c).len() == 1);
            assert(s.subrange(i, i + 1)[0] == s[i]);
            assert(s[i] == c);
            assert(dec_str(s, i) == Some((seq![c] + f1, i + k + enc_str(f1).len())));
        }
        assert(seq![c] + f1 =~= f);
        assert(i + k + enc_str(f1).len() == i + enc_str(f).len());
    }
}

/// Decoding a record undoes encoding it: wherever `enc_record(l)` occurs, the
/// record parser returns exactly `l` and stops just past the closing brace.
#[verifier::rlimit(30)]
pub proof fn lemma_dec_record_enc(s: Seq<char>, i: int, l: LicenseView)
    requires
        lit_at(s, i, enc_record(l)),
    ensures
        dec_record(s, i) == Some((l, i + enc_record(l).len())),
{
    let close = seq!['}'];
    let r12 = enc_str(l.body) + close;
    let r11 = lit_body() + r12;
    let r10 = enc_str(l.implementation) + r11;
    let r9 = lit_implementation() + r10;
    let r8 = enc_str(l.description) + r9;
    let r7 = lit_description() + r8;
    let r6 = enc_str(l.url) + r7;
    let r5 = lit_url() + r6;
    let r4 = enc_str(l.name) + r5;
    let r3 = lit_name() + r4;
    let r2 = enc_str(l.key) + r3;
    assert(enc_record(l) =~= lit_key() + r2);
    lemma_lit_at_cat(s, i, lit_key(), r2);
    let j0 = i + lit_key().len();
    lemma_lit_at_cat(s, j0, enc_str(l.key), r3);
    lemma_dec_str_enc(s, j0, l.key);
    let i1 = j0 + enc_str(l.key).len();
    lemma_lit_at_cat(s, i1, lit_name(), r4);
    let j1 = i1 + lit_name().len();
    lemma_lit_at_cat(s, j1, enc_str(l.name), r5);
    lemma_dec_str_enc(s, j1, l.name);
    let i2 = j1 + enc_str(l.name).len();
    lemma_lit_at_cat(s, i2, lit_url(), r6);
    let j2 = i2 + lit_url().len();
    lemma_lit_at_cat(s, j2, enc_str(l.url), r7);
    lemma_dec_str_enc(s, j2, l.url);
    let i3 = j2 + enc_str(l.url).len();
    lemma_lit_at_cat(s, i3, lit_description(), r8);
    let j3 = i3 + lit_description().len();
    lemma_lit_at_cat(s, j3, enc_str(l.description), r9);
    lemma_dec_str_enc(s, j3, l.description);
    let i4 = j3 + enc_str(l.description).len();
    lemma_lit_at_cat(s, i4, lit_implementation(), r10);
    let j4 = i4 + lit_implementation().len();
    lemma_lit_at_cat(s, j4, enc_str(l.implementation), r11);
    lemma_dec_str_enc(s, j4, l.implementation);
    let i5 = j4 + enc_str(l.implementation).len();
    lemma_lit_at_cat(s, i5, lit_body(), r12);
    let j5 = i5 + lit_body().len();
    lemma_lit_at_cat(s, j5, enc_str(l.body), close);
    lemma_dec_str_enc(s, j5, l.body);
    let i6 = j5 + enc_str(l.body).len();
    assert(s.subrange(i6, i6 + 1)[0] == s[i6]);
    assert(s[i6] == '}');
    assert(LicenseView {
        key: l.key,
        name: l.name,
        url: l.url,
        description: l.description,
        implementation: l.implementation,
        body: l.body,
    } =~= l);
    assert(i6 + 1 == i + enc_record(l).len());
    assert(dec_record(s, i) == Some((l, i + enc_record(l).len())));
}

/// Decoding a record sequence undoes encoding it.
pub proof fn lemma_dec_records_enc(s: Seq<char>, i: int, ls: Seq<LicenseView>)
    requires
        ls.len() > 0,
        lit_at(s, i, enc_records(ls)),
    ensures
        dec_records(s, i) == Some((ls, i + enc_records(ls).len())),
    decreases ls.len(),
{
    let l = ls[0];
    if ls.len() == 1 {
        let close = seq![']'];
        assert(enc_records(ls) =~= enc_record(l) + close);
        lemma_lit_at_cat(s, i, enc_record(l), close);
        lemma_dec_record_enc(s, i, l);
        let j = i + enc_record(l).len();
        assert(s.subrange(j, j + 1)[0] == s[j]);
        assert(s[j] == ']');
        assert(seq![l] =~= ls);
        assert(dec_records(s, i) == Some((ls, i + enc_records(ls).len())));
    } else {
        let rest = ls.drop_first();
        let comma = seq![','];
        let tail = comma + enc_records(rest);
        assert(enc_records(ls) =~= enc_record(l) + tail);
        lemma_lit_at_cat(s, i, enc_record(l), tail);
        lemma_dec_record_enc(s, i, l);
        let j = i + enc_record(l).len();
        lemma_lit_at_cat(s, j, comma, enc_records(rest));
        assert(s.subrange(j, j + 1)[0] == s[j]);
        assert(s[j] == ',');
        assert(j > i);
        lemma_dec_records_enc(s, j + 1, rest);
        assert(seq![l] + rest =~= ls);
        assert(j + 1 + enc_records(rest).len() == i + enc_records(ls).len());
        assert(dec_records(s, i) == Some((ls, i + enc_records(ls).len())));
    }
}

/// The round trip of the codec: decoding an encoded catalog yields exactly
/// the records that were encoded, for every list of records.
pub proof fn lemma_round_trip(ls: Seq<LicenseView>)
    ensures
        dec_list(enc_list(ls)) == Some(ls),
{
    let s = enc_list(ls);
    if ls.len() == 0 {
        assert(s[0] == '[' && s[1] == ']');
        assert(ls =~= Seq::<LicenseView>::empty());
    } else {
        assert(s =~= seq!['['] + enc_records(ls));
        assert(s[0] == '[');
        assert(enc_records(ls).len() >= 2) by {
            assert(enc_record(ls[0]).len() >= 1);
        }
        assert(s.len() != 2 || s[1] != ']') by {
            if s.len() == 2 {
                assert(enc_records(ls).len() == 1);
            }
        }
        assert(s.subrange(1, 1 + enc_records(ls).len() as int) =~= enc_records(ls));
        assert(lit_at(s, 1, enc_records(ls)));
        lemma_dec_records_enc(s, 1, ls);
        assert(1 + enc_records(ls).len() == s.len());
        assert(dec_list(s) == Some(ls));
    }
}

/// Appends the characters of `s` to `out`.
fn push_str_chars(out: &mut Vec<char>, s: &str)
    ensures
        final(out)@ == old(out)@ + s@,
{
    let n: usize = s.unicode_len();
    let mut k: usize = 0;
    while k < n
        invariant
            n == s@.len(),
            k <= n,
            out@ == old(out)@ + s@.subrange(0, k as int),
        decreases n - k,
    {
        let c = s.get_char(k);
        out.push(c);
        k = k + 1;
        proof {
            assert(out@ =~= old(out)@ + s@.subrange(0, k as int));
        }
    }
    proof {
        assert(out@ =~= old(out)@ + s@);
    }
}

/// Appends the escaped form of `s` to `out`.
fn push_escaped(out: &mut Vec<char>, s: &str)
    ensures
        final(out)@ == old(out)@ + esc(s@),
{
    let n: usize = s.unicode_len();
    let mut k: usize = 0;
    proof {
        assert(s@.skip(0) =~= s@);
    }
    while k < n
        invariant
            n == s@.len(),
            k <= n,
            out@ + esc(s@.skip(k as int)) == old(out)@ + esc(s@),
        decreases n - k,
    {
        let ghost pre = out@;
        let ghost suf = s@.skip(k as int);
        let c = s.get_char(k);
        if c == '"' {
            out.push('\\');
            out.push('"');
        } else if c == '\\' {
            out.push('\\');
            out.push('\\');
        } else if c == '\n' {
            out.push('\\');
            out.push('n');
        } else if c == '\r' {
            out.push('\\');
            out.push('r');
        } else if c == '\t' {
            out.push('\\');
            out.push('t');
        } else {
            out.push(c);
        }
        k = k + 1;
        proof {
            assert(out@ =~= pre + esc_char(c));
            assert(suf[0] == c);
            assert(suf.drop_first() =~= s@.skip(k as int));
            assert(esc(suf) == esc_char(c) + esc(s@.skip(k as int)));
            assert(out@ + esc(s@.skip(k as int)) =~= pre + esc(suf));
        }
    }
    proof {
        assert(esc(s@.skip(n as int)) =~= Seq::<char>::empty());
        assert(out@ =~= out@ + esc(s@.skip(n as int)));
        assert(out@ =~= old(out)@ + esc(s@));
    }
}

/// Appends a quoted string's tail — escaped text and closing quote — to
/// `out`.
fn push_enc_str(out: &mut Vec<char>, s: &str)
    ensures
        final(out)@ == old(out)@ + enc_str(s@),
{
    push_escaped(out, s);
    out.push('"');
    proof {
        assert(out@ =~= old(out)@ + enc_str(s@));
    }
}

/// Appends one encoded record to `out`.
fn push_record(out: &mut Vec<char>, l: &License)
    ensures
        final(out)@ == old(out)@ + enc_record(l@),
{
    push_str_chars(out, "{\"key\":\"");
    push_enc_str(out, l.key.as_str());
    push_str_chars(out, ",\"name\":\"");
    push_enc_str(out, l.name.as_str());
    push_str_chars(out, ",\"url\":\"");
    push_enc_str(out, l.url.as_str());
    push_str_chars(out, ",\"description\":\"");
    push_enc_str(out, l.description.as_str());
    push_str_chars(out, ",\"implementation\":\"");
    push_enc_str(out, l.implementation.as_str());
    push_str_chars(out, ",\"body\":\"");
    push_enc_str(out, l.body.as_str());
    out.push('}');
    proof {
        assert(out@ =~= old(out)@ + enc_record(l@));
    }
}

/// Serializes a catalog to the cache file's text.
pub fn encode_licenses(ls: &Vec<License>) -> (r: String)
    ensures
        r@ == enc_list(seq_views(ls@)),
{
    let ghost sv = seq_views(ls@);
    let mut out: Vec<char> = Vec::new();
    out.push('[');
    let n = ls.len();
    if n == 0 {
        out.push(']');
        proof {
            assert(out@ =~= enc_list(sv));
        }
    } else {
        let mut k: usize = 0;
        proof {
            assert(sv.skip(0) =~= sv);
            assert(out@ =~= seq!['[']);
        }
        while k < n
            invariant
                n == ls@.len(),
                n == sv.len(),
                n > 0,
                k <= n,
                sv == seq_views(ls@),
                k < n ==> out@ + enc_records(sv.skip(k as int)) == seq!['['] + enc_records(sv),
                k == n ==> out@ == seq!['['] + enc_records(sv),
            decreases n - k,
        {
            let ghost pre = out@;
            let ghost suf = sv.skip(k as int);
            push_record(&mut out, &ls[k]);
            proof {
                assert(suf[0] == sv[k as int]);
                assert(sv[k as int] == ls@[k as int]@);
            }
            if k + 1 < n {
                out.push(',');
                proof {
                    assert(suf.drop_first() =~= sv.skip(k + 1 as int));
                    assert(enc_records(suf) == enc_record(suf[0]) + seq![',']
                        + enc_records(sv.skip(k + 1 as int)));
                    assert(out@ =~= pre + (enc_record(suf[0]) + seq![',']));
                    assert(out@ + enc_records(sv.skip(k + 1 as int)) =~= pre + enc_records(suf));
                }
            } else {
                out.push(']');
                proof {
                    assert(suf.len() == 1);
                    assert(enc_records(suf) == enc_record(suf[0]) + seq![']']);
                    assert(out@ =~= pre + enc_records(suf));
                }
            }
            k = k + 1;
        }
        proof {
            assert(out@ =~= enc_list(sv));
        }
    }
    chars_to_string(&out)
}

/// `o` with `p` prepended to the text of a successful string parse.
pub open spec fn str_prepend(p: Seq<char>, o: Option<(Seq<char>, int)>) -> Option<
    (Seq<char>, int),
> {
    match o {
        None => None,
        Some((t, j)) => Some((p + t, j)),
    }
}

proof fn lemma_str_prepend_empty(o: Option<(Seq<char>, int)>)
    ensures
        str_prepend(Seq::empty(), o) == o,
{
    match o {
        None => {},
        Some((t, j)) => {
            assert(Seq::empty() + t =~= t);
        },
    }
}

proof fn lemma_str_prepend_step(p: Seq<char>, c: char, o: Option<(Seq<char>, int)>)
    ensures
        str_prepend(p, str_prepend(seq![c], o)) == str_prepend(p.push(c), o),
{
    match o {
        None => {},
        Some((t, j)) => {
            assert(p + (seq![c] + t) =~= p.push(c) + t);
        },
    }
}

/// Finds whether `lit` occurs in `s` at `i`; on success returns the position
/// just past it.
fn expect_lit(s: &Vec<char>, i: usize, lit: &str) -> (r: Option<usize>)
    ensures
        match r {
            Some(j) => lit_at(s@, i as int, lit@) && j == i + lit@.len() && i <= j <= s@.len(),
            None => !lit_at(s@, i as int, lit@),
        },
{
    let n: usize = lit.unicode_len();
    if i > s.len() || n > s.len() - i {
        return None;
    }
    let mut k: usize = 0;
    while k < n
        invariant
            n == lit@.len(),
            k <= n,
            i + n <= s@.len() <= usize::MAX,
            forall|m: int| 0 <= m < k ==> s@[i + m] == lit@[m],
        decreases n - k,
    {
        if s[i + k] != lit.get_char(k) {
            proof {
                if lit_at(s@, i as int, lit@) {
                    assert(s@.subrange(i as int, i + lit@.len())[k as int] == s@[i + k]);
                }
            }
            return None;
        }
        k = k + 1;
    }
    proof {
        assert(s@.subrange(i as int, i + lit@.len()) =~= lit@);
    }
    Some(i + n)
}

/// Parses a quoted string's tail starting at `start`: the decoded text and
/// the position just past the closing quote.
fn parse_str(s: &Vec<char>, start: usize) -> (r: Option<(Vec<char>, usize)>)
    ensures
        match r {
            Some(p) => dec_str(s@, start as int) == Some((p.0@, p.1 as int)) && start < p.1
                <= s@.len(),
            None => dec_str(s@, start as int) is None,
        },
{
    let mut acc: Vec<char> = Vec::new();
    let mut cur: usize = start;
    proof {
        lemma_str_prepend_empty(dec_str(s@, start as int));
    }
    loop
        invariant
            start <= cur,
            dec_str(s@, start as int) == str_prepend(acc@, dec_str(s@, cur as int)),
        decreases s@.len() - cur,
    {
        if cur >= s.len() {
            return None;
        }
        let c = s[cur];
        if c == '"' {
            proof {
                assert(acc@ + Seq::<char>::empty() =~= acc@);
            }
            return Some((acc, cur + 1));
        }
        let ghost pre = acc@;
        if c == '\\' {
            if cur + 1 >= s.len() {
                return None;
            }
            let e = s[cur + 1];
            let d: char;
            if e == '"' {
                d = '"';
            } else if e == '\\' {
                d = '\\';
            } else if e == 'n' {
                d = '\n';
            } else if e == 'r' {
                d = '\r';
            } else if e == 't' {
                d = '\t';
            } else {
                return None;
            }
            proof {
                assert(unesc_char(e) == Some(d));
                assert(dec_str(s@, cur as int) == str_prepend(
                    seq![d],
                    dec_str(s@, cur + 2 as int),
                ));
                lemma_str_prepend_step(pre, d, dec_str(s@, cur + 2 as int));
            }
            acc.push(d);
            cur = cur + 2;
        } else {
            proof {
                assert(dec_str(s@, cur as int) == str_prepend(
                    seq![c],
                    dec_str(s@, cur + 1 as int),
                ));
                lemma_str_prepend_step(pre, c, dec_str(s@, cur + 1 as int));
            }
            acc.push(c);
            cur = cur + 1;
        }
    }
}

/// Parses one record starting at `i`: the record and the position just past
/// its closing brace.
#[verifier::rlimit(30)]
fn parse_record(s: &Vec<char>, i: usize) -> (r: Option<(License, usize)>)
    ensures
        match r {
            Some(p) => dec_record(s@, i as int) == Some((p.0@, p.1 as int)) && i < p.1 <= s@.len(),
            None => dec_record(s@, i as int) is None,
        },
{
    let j0 = match expect_lit(s, i, "{\"key\":\"") {
        Some(j) => j,
        None => {
            return None;
        },
    };
    let (key, i1) = match parse_str(s, j0) {
        Some(p) => p,
        None => {
            return None;
        },
    };
    let j1 = match expect_lit(s, i1, ",\"name\":\"") {
        Some(j) => j,
        None => {
            return None;
        },
    };
    let (name, i2) = match parse_str(s, j1) {
        Some(p) => p,
        None => {
            return None;
        },
    };
    let j2 = match expect_lit(s, i2, ",\"url\":\"") {
        Some(j) => j,
        None => {
            return None;
        },
    };
    let (url, i3) = match parse_str(s, j2) {
        Some(p) => p,
        None => {
            return None;
        },
    };
    let j3 = match expect_lit(s, i3, ",\"description\":\"") {
        Some(j) => j,
        None => {
            return None;
        },
    };
    let (description, i4) = match parse_str(s, j3) {
        Some(p) => p,
        None => {
            return None;
        },
    };
    let j4 = match expect_lit(s, i4, ",\"implementation\":\"") {
        Some(j) => j,
        None => {
            return None;
        },
    };
    let (implementation, i5) = match parse_str(s, j4) {
        Some(p) => p,
        None => {
            return None;
        },
    };
    let j5 = match expect_lit(s, i5, ",\"body\":\"") {
        Some(j) => j,
        None => {
            return None;
        },
    };
    let (body, i6) = match parse_str(s, j5) {
        Some(p) => p,
        None => {
            return None;
        },
    };
    if i6 < s.len() && s[i6] == '}' {
        let l = License {
            key: chars_to_string(&key),
            name: chars_to_string(&name),
            url: chars_to_string(&url),
            description: chars_to_string(&description),
            implementation: chars_to_string(&implementation),
            body: chars_to_string(&body),
        };
        proof {
            assert(l@ =~= LicenseView {
                key: key@,
                name: name@,
                url: url@,
                description: description@,
                implementation: implementation@,
                body: body@,
            });
        }
        Some((l, i6 + 1))
    } else {
        None
    }
}

/// `o` with `p` prepended to the records of a successful parse.
pub open spec fn recs_prepend(p: Seq<LicenseView>, o: Option<(Seq<LicenseView>, int)>) -> Option<
    (Seq<LicenseView>, int),
> {
    match o {
        None => None,
        Some((t, j)) => Some((p + t, j)),
    }
}

proof fn lemma_recs_prepend_empty(o: Option<(Seq<LicenseView>, int)>)
    ensures
        recs_prepend(Seq::empty(), o) == o,
{
    match o {
        None => {},
        Some((t, j)) => {
            assert(Seq::empty() + t =~= t);
        },
    }
}

proof fn lemma_recs_prepend_step(
    p: Seq<LicenseView>,
    l: LicenseView,
    o: Option<(Seq<LicenseView>, int)>,
)
    ensures
        recs_prepend(p, recs_prepend(seq![l], o)) == recs_prepend(p.push(l), o),
{
    match o {
        None => {},
        Some((t, j)) => {
            assert(p + (seq![l] + t) =~= p.push(l) + t);
        },
    }
}

/// Deserializes the cache file's text. Succeeds exactly on the texts that
/// `encode_licenses` produces, and then returns the records encoded there;
/// anything else is a decode error.
pub fn decode_licenses(s: &str) -> (r: Result<Vec<License>, DecodeError>)
    ensures
        match r {
            Ok(v) => dec_list(s@) == Some(seq_views(v@)),
            Err(_) => dec_list(s@) is None,
        },
{
    let cs = str_to_chars(s);
    let len = cs.len();
    if len == 2 && cs[0] == '[' && cs[1] == ']' {
        let empty: Vec<License> = Vec::new();
        proof {
            assert(seq_views(empty@) =~= Seq::<LicenseView>::empty());
        }
        return Ok(empty);
    }
    if len == 0 || cs[0] != '[' {
        return Err(DecodeError {});
    }
    let mut acc: Vec<License> = Vec::new();
    let mut i: usize = 1;
    proof {
        lemma_recs_prepend_empty(dec_records(cs@, 1));
        assert(seq_views(acc@) =~= Seq::<LicenseView>::empty());
    }
    loop
        invariant
            cs@ == s@,
            s@.len() <= usize::MAX,
            !(s@.len() == 2 && s@[0] == '[' && s@[1] == ']'),
            s@.len() > 0,
            s@[0] == '[',
            1 <= i <= s@.len(),
            dec_records(cs@, 1) == recs_prepend(seq_views(acc@), dec_records(cs@, i as int)),
        decreases s@.len() - i,
    {
        let ghost pre = seq_views(acc@);
        let (l, j) = match parse_record(&cs, i) {
            Some(p) => p,
            None => {
                return Err(DecodeError {});
            },
        };
        proof {
            assert(seq_views(acc@.push(l)) =~= pre.push(l@));
        }
        acc.push(l);
        if j < cs.len() && cs[j] == ',' {
            proof {
                assert(dec_records(cs@, i as int) == recs_prepend(
                    seq![l@],
                    dec_records(cs@, j + 1 as int),
                ));
                lemma_recs_prepend_step(pre, l@, dec_records(cs@, j + 1 as int));
            }
            i = j + 1;
        } else if j < cs.len() && cs[j] == ']' {
            if j + 1 == cs.len() {
                proof {
                    assert(dec_records(cs@, i as int) == Some((seq![l@], j + 1 as int)));
                    assert(pre + seq![l@] =~= pre.push(l@));
                    assert(dec_records(cs@, 1) == Some((seq_views(acc@), j + 1 as int)));
                }
                return Ok(acc);
            } else {
                proof {
                    assert(dec_records(cs@, i as int) == Some((seq![l@], j + 1 as int)));
                    assert(pre + seq![l@] =~= pre.push(l@));
                }
                return Err(DecodeError {});
            }
        } else {
            return Err(DecodeError {});
        }
    }
}

} // verus!
