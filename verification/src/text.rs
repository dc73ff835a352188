//! Character-level text utilities for the flat-file ingest formats:
//! separator splitting, whitespace field extraction, digit and decimal
//! parsing into fixed-point values, and decimal rendering for synthesized
//! title labels.

use vstd::prelude::*;

verus! {

/// A decimal digit.
pub open spec fn is_digit(c: char) -> bool {
    48 <= c as u32 <= 57
}

/// The numeric value of a decimal digit.
pub open spec fn digit_val(c: char) -> int {
    c as u32 - 48
}

pub open spec fn all_digits(s: Seq<char>) -> bool {
    forall|i: int| 0 <= i < s.len() ==> is_digit(#[trigger] s[i])
}

/// The number a digit string denotes (most significant digit first).
pub open spec fn dec_val(s: Seq<char>) -> int
    decreases s.len(),
{
    if s.len() == 0 {
        0
    } else {
        dec_val(s.drop_last()) * 10 + digit_val(s.last())
    }
}

pub proof fn lemma_dec_val_nonneg(s: Seq<char>)
    requires
        all_digits(s),
    ensures
        dec_val(s) >= 0,
    decreases s.len(),
{
    if s.len() > 0 {
        lemma_dec_val_nonneg(s.drop_last());
    }
}

/// A digit string is worth at least any of its prefixes.
pub proof fn lemma_dec_val_prefix(s: Seq<char>, i: int)
    requires
        all_digits(s),
        0 <= i <= s.len(),
    ensures
        dec_val(s.take(i)) <= dec_val(s),
    decreases s.len(),
{
    if i < s.len() {
        assert(s.drop_last().take(i) =~= s.take(i));
        lemma_dec_val_prefix(s.drop_last(), i);
        lemma_dec_val_nonneg(s.drop_last());
    } else {
        assert(s.take(i) =~= s);
    }
}

/// Splitting on a separator: always at least one (possibly empty) piece;
/// a separator at the front opens a new empty piece.
pub open spec fn split_on(s: Seq<char>, sep: char) -> Seq<Seq<char>>
    decreases s.len(),
{
    if s.len() == 0 {
        seq![Seq::<char>::empty()]
    } else if s[0] == sep {
        seq![Seq::<char>::empty()] + split_on(s.skip(1), sep)
    } else {
        let r = split_on(s.skip(1), sep);
        seq![seq![s[0]] + r[0]] + r.skip(1)
    }
}

pub proof fn lemma_split_on_len(s: Seq<char>, sep: char)
    ensures
        split_on(s, sep).len() >= 1,
    decreases s.len(),
{
    if s.len() > 0 {
        lemma_split_on_len(s.skip(1), sep);
    }
}

/// A separator-free string splits into itself alone.
pub proof fn lemma_split_no_sep(s: Seq<char>, sep: char)
    requires
        forall|i: int| 0 <= i < s.len() ==> s[i] != sep,
    ensures
        split_on(s, sep) =~~= seq![s],
    decreases s.len(),
{
    if s.len() > 0 {
        lemma_split_no_sep(s.skip(1), sep);
        assert(seq![s[0]] + s.skip(1) =~= s);
    }
}

/// The first separator closes the first piece.
pub proof fn lemma_split_first_sep(p: Seq<char>, t: Seq<char>, sep: char)
    requires
        forall|i: int| 0 <= i < p.len() ==> p[i] != sep,
    ensures
        split_on(p + seq![sep] + t, sep) =~~= seq![p] + split_on(t, sep),
    decreases p.len(),
{
    let s = p + seq![sep] + t;
    if p.len() == 0 {
        assert(s[0] == sep);
        assert(s.skip(1) =~= t);
    } else {
        assert(s[0] == p[0]);
        assert(s.skip(1) =~= p.skip(1) + seq![sep] + t);
        lemma_split_first_sep(p.skip(1), t, sep);
        lemma_split_on_len(t, sep);
        assert(seq![s[0]] + (seq![p.skip(1)] + split_on(t, sep))[0] =~= p);
    }
}

/// Splits a string on a separator character.
pub fn split_on_char(s: &str, sep: char) -> (r: Vec<String>)
    ensures
        r.deep_view() =~~= split_on(s@, sep),
{
    let n: usize = s.unicode_len();
    let mut r: Vec<String> = Vec::new();
    let mut start: usize = 0;
    let mut i: usize = 0;
    proof {
        assert(s@.skip(0) =~= s@);
        assert(r.deep_view() =~~= Seq::<Seq<char>>::empty());
    }
    while i < n
        invariant
            n == s@.len(),
            start <= i <= n,
            forall|j: int| start <= j < i ==> s@[j] != sep,
            split_on(s@, sep) =~~= r.deep_view() + split_on(s@.skip(start as int), sep),
        decreases n - i,
    {
        if s.get_char(i) == sep {
            let piece = s.substring_char(start, i);
            proof {
                let rest = s@.skip(start as int);
                assert(rest =~= piece@ + seq![sep] + s@.skip(i as int + 1));
                lemma_split_first_sep(piece@, s@.skip(i as int + 1), sep);
            }
            r.push(piece.to_owned());
            start = i + 1;
        }
        i = i + 1;
    }
    let piece = s.substring_char(start, n);
    proof {
        assert(s@.skip(start as int) =~= piece@);
        lemma_split_no_sep(piece@, sep);
    }
    r.push(piece.to_owned());
    r
}

/// Whitespace for field splitting: space, tab, carriage return.
pub open spec fn is_ws(c: char) -> bool {
    c == ' ' || c == '\t' || c == '\r'
}

/// The maximal whitespace-free runs of a string, in order.
pub open spec fn fields_of(s: Seq<char>) -> Seq<Seq<char>>
    decreases s.len(),
{
    if s.len() == 0 {
        Seq::<Seq<char>>::empty()
    } else if is_ws(s[0]) {
        fields_of(s.skip(1))
    } else {
        let r = fields_of(s.skip(1));
        if s.len() > 1 && !is_ws(s[1]) {
            seq![seq![s[0]] + r[0]] + r.skip(1)
        } else {
            seq![seq![s[0]]] + r
        }
    }
}

/// A nonempty whitespace-free run followed by whitespace (or the end)
/// forms the first field.
pub proof fn lemma_fields_run(p: Seq<char>, t: Seq<char>)
    requires
        p.len() > 0,
        forall|i: int| 0 <= i < p.len() ==> !is_ws(p[i]),
        t.len() == 0 || is_ws(t[0]),
    ensures
        fields_of(p + t) =~~= seq![p] + fields_of(t),
    decreases p.len(),
{
    let s = p + t;
    assert(!is_ws(s[0]));
    if p.len() == 1 {
        assert(s.skip(1) =~= t);
        if s.len() > 1 {
            assert(s[1] == t[0]);
        }
        assert(seq![seq![s[0]]] =~~= seq![p]);
    } else {
        assert(s.skip(1) =~= p.skip(1) + t);
        lemma_fields_run(p.skip(1), t);
        assert(s.len() > 1 && !is_ws(s[1]));
        let r = fields_of(s.skip(1));
        assert(r =~~= seq![p.skip(1)] + fields_of(t));
        assert(seq![s[0]] + r[0] =~= p);
        assert(r.skip(1) =~~= fields_of(t));
    }
}

/// Splits a string into whitespace-separated fields.
pub fn split_fields(s: &str) -> (r: Vec<String>)
    ensures
        r.deep_view() =~~= fields_of(s@),
{
    let n: usize = s.unicode_len();
    let mut r: Vec<String> = Vec::new();
    let mut pos: usize = 0;
    proof {
        assert(s@.skip(0) =~= s@);
        assert(r.deep_view() =~~= Seq::<Seq<char>>::empty());
    }
    while pos < n
        invariant
            n == s@.len(),
            pos <= n,
            fields_of(s@) =~~= r.deep_view() + fields_of(s@.skip(pos as int)),
        decreases n - pos,
    {
        let c = s.get_char(pos);
        if c == ' ' || c == '\t' || c == '\r' {
            proof {
                assert(s@.skip(pos as int).skip(1) =~= s@.skip(pos as int + 1));
            }
            pos = pos + 1;
        } else {
            let start = pos;
            let mut j = pos + 1;
            while j < n
                invariant
                    n == s@.len(),
                    start < j <= n,
                    forall|k: int| start <= k < j ==> !is_ws(s@[k]),
                ensures
                    start < j <= n,
                    forall|k: int| start <= k < j ==> !is_ws(s@[k]),
                    j == n || is_ws(s@[j as int]),
                decreases n - j,
            {
                let c2 = s.get_char(j);
                if c2 == ' ' || c2 == '\t' || c2 == '\r' {
                    break ;
                }
                j = j + 1;
            }
            let piece = s.substring_char(start, j);
            proof {
                assert(s@.skip(start as int) =~= piece@ + s@.skip(j as int));
                lemma_fields_run(piece@, s@.skip(j as int));
            }
            r.push(piece.to_owned());
            pos = j;
        }
    }
    proof {
        assert(s@.skip(pos as int) =~= Seq::<char>::empty());
    }
    r
}

/// Drops one trailing carriage return, as a line reader would.
pub open spec fn strip_cr(s: Seq<char>) -> Seq<char> {
    if s.len() > 0 && s.last() == '\r' {
        s.drop_last()
    } else {
        s
    }
}

pub fn strip_cr_exec(s: &str) -> (r: String)
    ensures
        r@ == strip_cr(s@),
{
    let n = s.unicode_len();
    if n > 0 && s.get_char(n - 1) == '\r' {
        let p = s.substring_char(0, n - 1);
        proof {
            assert(p@ =~= s@.drop_last());
        }
        p.to_owned()
    } else {
        s.to_owned()
    }
}

/// Drops every leading occurrence of a marker character.
pub open spec fn strip_leading(s: Seq<char>, c: char) -> Seq<char>
    decreases s.len(),
{
    if s.len() > 0 && s[0] == c {
        strip_leading(s.skip(1), c)
    } else {
        s
    }
}

pub fn strip_leading_exec(s: &str, c: char) -> (r: String)
    ensures
        r@ == strip_leading(s@, c),
{
    let n = s.unicode_len();
    let mut i: usize = 0;
    proof {
        assert(s@.skip(0) =~= s@);
    }
    while i < n
        invariant
            n == s@.len(),
            i <= n,
            strip_leading(s@, c) == strip_leading(s@.skip(i as int), c),
        ensures
            n == s@.len(),
            i <= n,
            strip_leading(s@, c) == strip_leading(s@.skip(i as int), c),
            i == n || s@[i as int] != c,
        decreases n - i,
    {
        if s.get_char(i) != c {
            break ;
        }
        proof {
            assert(s@.skip(i as int).skip(1) =~= s@.skip(i as int + 1));
        }
        i = i + 1;
    }
    let p = s.substring_char(i, n);
    proof {
        assert(p@ =~= s@.skip(i as int));
        if i < n {
            assert(s@.skip(i as int)[0] == s@[i as int]);
        }
    }
    p.to_owned()
}

/// Character-wise string equality.
pub fn str_eq(a: &str, b: &str) -> (r: bool)
    ensures
        r == (a@ == b@),
{
    let na = a.unicode_len();
    let nb = b.unicode_len();
    if na != nb {
        return false;
    }
    let mut i: usize = 0;
    while i < na
        invariant
            na == a@.len() == b@.len(),
            i <= na,
            forall|j: int| 0 <= j < i ==> a@[j] == b@[j],
        decreases na - i,
    {
        if a.get_char(i) != b.get_char(i) {
            return false;
        }
        i = i + 1;
    }
    proof {
        assert(a@ =~= b@);
    }
    true
}

/// What a non-negative integer field parses to: the denoted value if the
/// string is nonempty, all digits, and the value is within `bound`.
pub open spec fn parse_uint_spec(s: Seq<char>, bound: int) -> Option<int> {
    if s.len() > 0 && all_digits(s) && dec_val(s) <= bound {
        Some(dec_val(s))
    } else {
        None
    }
}

/// Parses a non-negative decimal integer no larger than `bound`.
pub fn parse_uint(s: &str, bound: u64) -> (r: Option<u64>)
    requires
        bound >= 9,
    ensures
        r matches Some(v) ==> parse_uint_spec(s@, bound as int) == Some(v as int),
        r is None ==> parse_uint_spec(s@, bound as int) is None,
{
    let n = s.unicode_len();
    if n == 0 {
        return None;
    }
    let mut val: u64 = 0;
    let mut i: usize = 0;
    while i < n
        invariant
            n == s@.len(),
            i <= n,
            all_digits(s@.take(i as int)),
            val == dec_val(s@.take(i as int)),
            val <= bound,
            bound >= 9,
        decreases n - i,
    {
        let c = s.get_char(i);
        let u = c as u32;
        if u < 48 || u > 57 {
            assert(!all_digits(s@));
            return None;
        }
        let d: u64 = (u - 48) as u64;
        proof {
            assert(s@.take(i as int + 1).drop_last() =~= s@.take(i as int));
            assert(s@.take(i as int + 1).last() == s@[i as int]);
        }
        if val > (bound - d) / 10 {
            proof {
                if all_digits(s@) && dec_val(s@) <= bound {
                    lemma_dec_val_prefix(s@, i as int + 1);
                    vstd::arithmetic::div_mod::lemma_fundamental_div_mod(
                        (bound - d) as int,
                        10,
                    );
                    vstd::arithmetic::div_mod::lemma_mod_bound((bound - d) as int, 10);
                }
            }
            return None;
        }
        proof {
            vstd::arithmetic::div_mod::lemma_fundamental_div_mod((bound - d) as int, 10);
            vstd::arithmetic::div_mod::lemma_mod_bound((bound - d) as int, 10);
        }
        val = val * 10 + d;
        i = i + 1;
    }
    proof {
        assert(s@.take(n as int) =~= s@);
    }
    Some(val)
}

/// The digit of `s` at position `i`, or zero past the end.
pub open spec fn dv_at(s: Seq<char>, i: int) -> int {
    if 0 <= i < s.len() {
        digit_val(s[i])
    } else {
        0
    }
}

/// The first three fractional digits as thousandths (shorter fractions
/// are padded with zeros; further digits are truncated away).
pub open spec fn frac3_val(s: Seq<char>) -> int {
    100 * dv_at(s, 0) + 10 * dv_at(s, 1) + dv_at(s, 2)
}

/// What a signed decimal field parses to as a fixed-point value: an
/// optional sign, a nonempty integer digit run, and at most one point
/// followed by a digit run; magnitudes beyond `VMAX` do not parse.
pub open spec fn parse_fixed_spec(s: Seq<char>) -> Option<int> {
    let signed = s.len() > 0 && (s[0] == '-' || s[0] == '+');
    let neg = s.len() > 0 && s[0] == '-';
    let body = if signed {
        s.skip(1)
    } else {
        s
    };
    let pieces = split_on(body, '.');
    if pieces.len() > 2 {
        None
    } else {
        let ip = pieces[0];
        let fp = if pieces.len() == 2 {
            pieces[1]
        } else {
            Seq::<char>::empty()
        };
        if ip.len() == 0 || !all_digits(ip) || !all_digits(fp) {
            None
        } else {
            let mag = dec_val(ip) * (crate::SCALE as int) + frac3_val(fp);
            if mag > crate::VMAX as int {
                None
            } else if neg {
                Some(-mag)
            } else {
                Some(mag)
            }
        }
    }
}

/// Parses a signed decimal field into a fixed-point value.
#[verifier::loop_isolation(false)]
pub fn parse_fixed(s: &str) -> (r: Option<i64>)
    ensures
        r matches Some(v) ==> parse_fixed_spec(s@) == Some(v as int),
        r matches Some(v) ==> -(crate::VMAX as int) <= v <= crate::VMAX as int,
        r is None ==> parse_fixed_spec(s@) is None,
{
    let n = s.unicode_len();
    let signed = n > 0 && (s.get_char(0) == '-' || s.get_char(0) == '+');
    let neg = n > 0 && s.get_char(0) == '-';
    let body = if signed {
        s.substring_char(1, n)
    } else {
        s.substring_char(0, n)
    };
    proof {
        if signed {
            assert(body@ =~= s@.skip(1));
        } else {
            assert(body@ =~= s@);
        }
    }
    let pieces = split_on_char(body, '.');
    if pieces.len() > 2 {
        return None;
    }
    proof {
        lemma_split_on_len(body@, '.');
        assert(pieces.deep_view()[0] == pieces@[0]@);
    }
    let ip_bound: u64 = 1_000_000_000;
    let ipval = match parse_uint(&pieces[0], ip_bound) {
        Some(v) => v,
        None => {
            proof {
                let ip = split_on(body@, '.')[0];
                if ip.len() > 0 && all_digits(ip) {
                    // the integer part parses but is too large, so the
                    // magnitude is beyond VMAX
                    assert(dec_val(ip) > ip_bound);
                    lemma_dec_val_nonneg(ip);
                    assert(dec_val(ip) * (crate::SCALE as int) >= (ip_bound + 1)
                        * (crate::SCALE as int)) by (nonlinear_arith)
                        requires
                            dec_val(ip) >= ip_bound + 1,
                    ;
                }
            }
            return None;
        },
    };
    let mut frac: u64 = 0;
    if pieces.len() == 2 {
        proof {
            assert(pieces.deep_view()[1] == pieces@[1]@);
        }
        let fp: &String = &pieces[1];
        let fl = fp.as_str().unicode_len();
        let mut i: usize = 0;
        while i < fl
            invariant
                fl == fp@.len(),
                i <= fl,
                all_digits(fp@.take(i as int)),
                frac == 100 * dv_at(fp@.take(i as int), 0) + 10 * dv_at(
                    fp@.take(i as int),
                    1,
                ) + dv_at(fp@.take(i as int), 2),
            decreases fl - i,
        {
            let c = fp.as_str().get_char(i);
            let u = c as u32;
            if u < 48 || u > 57 {
                assert(!all_digits(fp@));
                return None;
            }
            proof {
                assert(fp@.take(i as int + 1).drop_last() =~= fp@.take(i as int));
                assert(forall|k: int|
                    0 <= k < i as int + 1 ==> fp@.take(i as int + 1)[k] == fp@[k]);
            }
            if i < 3 {
                if i == 0 {
                    frac = ((u - 48) as u64) * 100;
                } else if i == 1 {
                    frac = frac + ((u - 48) as u64) * 10;
                } else {
                    frac = frac + (u - 48) as u64;
                }
            }
            i = i + 1;
        }
        proof {
            assert(fp@.take(fl as int) =~= fp@);
        }
    }
    let mag: u64 = ipval * 1000 + frac;
    if mag > crate::VMAX as u64 {
        return None;
    }
    if neg {
        Some(-(mag as i64))
    } else {
        Some(mag as i64)
    }
}

/// The character of a decimal digit value.
pub open spec fn digit_char(d: int) -> char {
    if d == 0 {
        '0'
    } else if d == 1 {
        '1'
    } else if d == 2 {
        '2'
    } else if d == 3 {
        '3'
    } else if d == 4 {
        '4'
    } else if d == 5 {
        '5'
    } else if d == 6 {
        '6'
    } else if d == 7 {
        '7'
    } else if d == 8 {
        '8'
    } else {
        '9'
    }
}

/// The decimal rendering of a non-negative integer, most significant
/// digit first.
pub open spec fn dec_digits(n: int) -> Seq<char>
    decreases n,
{
    if n < 10 {
        seq![digit_char(n)]
    } else {
        dec_digits(n / 10) + seq![digit_char(n % 10)]
    }
}

fn digit_str(d: u64) -> (r: &'static str)
    requires
        d < 10,
    ensures
        r@ =~= seq![digit_char(d as int)],
{
    if d == 0 {
        proof {
            reveal_strlit("0");
        }
        "0"
    } else if d == 1 {
        proof {
            reveal_strlit("1");
        }
        "1"
    } else if d == 2 {
        proof {
            reveal_strlit("2");
        }
        "2"
    } else if d == 3 {
        proof {
            reveal_strlit("3");
        }
        "3"
    } else if d == 4 {
        proof {
            reveal_strlit("4");
        }
        "4"
    } else if d == 5 {
        proof {
            reveal_strlit("5");
        }
        "5"
    } else if d == 6 {
        proof {
            reveal_strlit("6");
        }
        "6"
    } else if d == 7 {
        proof {
            reveal_strlit("7");
        }
        "7"
    } else if d == 8 {
        proof {
            reveal_strlit("8");
        }
        "8"
    } else {
        proof {
            reveal_strlit("9");
        }
        "9"
    }
}

/// Renders a non-negative integer in decimal.
pub fn u64_to_string(n: u64) -> (s: String)
    ensures
        s@ =~= dec_digits(n as int),
    decreases n,
{
    if n < 10 {
        digit_str(n).to_owned()
    } else {
        let mut s = u64_to_string(n / 10);
        s.append(digit_str(n % 10));
        s
    }
}

/// The synthesized label for an item with no title records: a `v` marker
/// followed by the id in decimal.
pub open spec fn fallback_label(id: int) -> Seq<char> {
    if id >= 0 {
        seq!['v'] + dec_digits(id)
    } else {
        seq!['v', '-'] + dec_digits(-id)
    }
}

/// Builds the synthesized `v<id>` label.
pub fn v_label(id: i32) -> (r: String)
    ensures
        r@ =~= fallback_label(id as int),
{
    let mut s: String;
    if id >= 0 {
        proof {
            reveal_strlit("v");
        }
        s = "v".to_owned();
        s.append(u64_to_string(id as u64).as_str());
    } else {
        proof {
            reveal_strlit("v-");
        }
        s = "v-".to_owned();
        let mag: i64 = -(id as i64);
        s.append(u64_to_string(mag as u64).as_str());
    }
    s
}

} // verus!
