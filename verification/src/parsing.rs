use vstd::prelude::*;

verus! {

/// The byte is one of the ten decimal digit characters.
pub open spec fn is_decimal_digit(b: u8) -> bool {
    48 <= b <= 57
}

/// The number a sequence of decimal digit bytes denotes, most
/// significant digit first.
pub open spec fn decimal_value(s: Seq<u8>) -> int
    decreases s.len(),
{
    if s.len() == 0 {
        0
    } else {
        decimal_value(s.drop_last()) * 10 + (s.last() - 48)
    }
}

proof fn lemma_decimal_value_nonneg(s: Seq<u8>)
    requires
        forall|k: int| 0 <= k < s.len() ==> is_decimal_digit(#[trigger] s[k]),
    ensures
        decimal_value(s) >= 0,
    decreases s.len(),
{
    if s.len() > 0 {
        lemma_decimal_value_nonneg(s.drop_last());
    }
}

// a longer digit string denotes at least as much as its prefixes
proof fn lemma_decimal_value_prefix(s: Seq<u8>, k: int)
    requires
        0 <= k <= s.len(),
        forall|m: int| 0 <= m < s.len() ==> is_decimal_digit(#[trigger] s[m]),
    ensures
        decimal_value(s.subrange(0, k)) <= decimal_value(s),
    decreases s.len() - k,
{
    if k < s.len() {
        lemma_decimal_value_prefix(s, k + 1);
        let shorter = s.subrange(0, k);
        let longer = s.subrange(0, k + 1);
        assert(longer.drop_last() =~= shorter);
        lemma_decimal_value_nonneg(shorter);
    } else {
        assert(s.subrange(0, k) =~= s);
    }
}

/// Reads an unsigned decimal number: returns its value exactly when the
/// input is nonempty, all digits, and the value fits the result type.
pub fn parse_decimal(digits: &[u8]) -> (r: Option<u64>)
    ensures
        (r is Some) <==> (digits@.len() > 0 && (forall|k: int|
            0 <= k < digits@.len() ==> is_decimal_digit(#[trigger] digits@[k]))
            && decimal_value(digits@) <= u64::MAX),
        r matches Some(v) ==> v == decimal_value(digits@),
{
    let n = digits.len();
    if n == 0 {
        return None;
    }
    let mut value: u64 = 0;
    let mut k: usize = 0;
    while k < n
        invariant
            0 < n == digits@.len(),
            k <= n,
            forall|m: int| 0 <= m < k ==> is_decimal_digit(#[trigger] digits@[m]),
            value == decimal_value(digits@.subrange(0, k as int)),
        decreases n - k,
    {
        let b = digits[k];
        if b < 48 || b > 57 {
            return None;
        }
        let d = (b - 48) as u64;
        if value > (u64::MAX - d) / 10 {
            proof {
                // this prefix already exceeds the range, so the whole
                // number does
                assert(digits@.subrange(0, k as int + 1).drop_last() =~= digits@.subrange(
                    0,
                    k as int,
                ));
                assert(value * 10 + d > u64::MAX) by (nonlinear_arith)
                    requires
                        value > (u64::MAX - d) / 10,
                        0 <= d <= 9,
                ;
                if forall|m: int|
                    0 <= m < digits@.len() ==> is_decimal_digit(#[trigger] digits@[m]) {
                    lemma_decimal_value_prefix(digits@, k as int + 1);
                }
            }
            return None;
        }
        proof {
            assert(value * 10 + d <= u64::MAX) by (nonlinear_arith)
                requires
                    value <= (u64::MAX - d) / 10,
                    0 <= d <= 9,
            ;
            assert(digits@.subrange(0, k as int + 1).drop_last() =~= digits@.subrange(
                0,
                k as int,
            ));
        }
        value = value * 10 + d;
        k = k + 1;
    }
    proof {
        assert(digits@.subrange(0, n as int) =~= digits@);
    }
    Some(value)
}

/// The byte is a space, a tab or a carriage return: the separators of
/// the file formats.
pub open spec fn is_space(b: u8) -> bool {
    b == 32 || b == 9 || b == 13
}

/// The length of the token at the front of `s`: the longest run of
/// non-separator bytes.
pub open spec fn token_len(s: Seq<u8>) -> nat
    decreases s.len(),
{
    if s.len() == 0 || is_space(s[0]) {
        0
    } else {
        1 + token_len(s.drop_first())
    }
}

/// The tokens of a line: its maximal runs of non-separator bytes, in
/// order.
pub open spec fn spec_tokens(s: Seq<u8>) -> Seq<Seq<u8>>
    decreases s.len(),
{
    if s.len() == 0 {
        Seq::empty()
    } else if is_space(s[0]) {
        spec_tokens(s.drop_first())
    } else if token_len(s) <= s.len() {
        seq![s.subrange(0, token_len(s) as int)] + spec_tokens(
            s.subrange(token_len(s) as int, s.len() as int),
        )
    } else {
        Seq::empty()
    }
}

// the front token is the run up to the first separator
proof fn lemma_token_len(s: Seq<u8>)
    ensures
        token_len(s) <= s.len(),
        forall|m: int| 0 <= m < token_len(s) ==> !is_space(#[trigger] s[m]),
        token_len(s) < s.len() ==> is_space(s[token_len(s) as int]),
    decreases s.len(),
{
    if s.len() > 0 && !is_space(s[0]) {
        lemma_token_len(s.drop_first());
        let rest = s.drop_first();
        assert forall|m: int| 0 <= m < token_len(s) implies !is_space(
            #[trigger] s[m],
        ) by {
            if m > 0 {
                assert(rest[m - 1] == s[m]);
            }
        }
        if token_len(s) < s.len() {
            assert(rest[token_len(s) as int - 1] == s[token_len(s) as int]);
        }
    }
}

/// Splits a line into its tokens.
pub fn tokenize(line: &Vec<u8>) -> (r: Vec<Vec<u8>>)
    ensures
        r@.map_values(|t: Vec<u8>| t@) == spec_tokens(line@),
{
    let n = line.len();
    let mut tokens: Vec<Vec<u8>> = Vec::new();
    let mut pos: usize = 0;
    proof {
        assert(line@.subrange(0, n as int) =~= line@);
        assert(tokens@.map_values(|t: Vec<u8>| t@) =~= Seq::empty());
        assert(Seq::<Seq<u8>>::empty() + spec_tokens(line@) =~= spec_tokens(line@));
    }
    while pos < n
        invariant
            pos <= n,
            n == line@.len(),
            spec_tokens(line@) == tokens@.map_values(|t: Vec<u8>| t@) + spec_tokens(
                line@.subrange(pos as int, n as int),
            ),
        decreases n - pos,
    {
        let ghost suffix = line@.subrange(pos as int, n as int);
        if line[pos] == 32 || line[pos] == 9 || line[pos] == 13 {
            proof {
                assert(suffix[0] == line@[pos as int]);
                assert(suffix.drop_first() =~= line@.subrange(
                    pos as int + 1,
                    n as int,
                ));
            }
            pos = pos + 1;
        } else {
            // collect the maximal run of non-separator bytes
            let start = pos;
            let mut token: Vec<u8> = Vec::new();
            while pos < n && line[pos] != 32 && line[pos] != 9 && line[pos] != 13
                invariant
                    start <= pos <= n,
                    n == line@.len(),
                    token@ == line@.subrange(start as int, pos as int),
                    forall|m: int|
                        start <= m < pos ==> !is_space(#[trigger] line@[m]),
                decreases n - pos,
            {
                token.push(line[pos]);
                proof {
                    assert(token@ =~= line@.subrange(start as int, pos as int + 1));
                }
                pos = pos + 1;
            }
            proof {
                lemma_token_len(suffix);
                // the scanned run is exactly the front token of the suffix
                assert(token_len(suffix) == pos - start) by {
                    assert forall|m: int| 0 <= m < pos - start implies !is_space(
                        #[trigger] suffix[m],
                    ) by {
                        assert(suffix[m] == line@[start + m]);
                    }
                    if token_len(suffix) > pos - start {
                        assert(!is_space(suffix[pos - start]));
                        assert(suffix[pos - start] == line@[pos as int]);
                    }
                    if token_len(suffix) < pos - start {
                        assert(is_space(suffix[token_len(suffix) as int]));
                        assert(suffix[token_len(suffix) as int] == line@[start
                            + token_len(suffix)]);
                    }
                }
                assert(token@ =~= suffix.subrange(0, token_len(suffix) as int));
                assert(suffix.subrange(token_len(suffix) as int, suffix.len() as int)
                    =~= line@.subrange(pos as int, n as int));
            }
            let ghost prev_tokens = tokens@;
            tokens.push(token);
            proof {
                assert(tokens@.map_values(|t: Vec<u8>| t@) =~= prev_tokens.map_values(
                    |t: Vec<u8>| t@,
                ).push(token@));
                assert(spec_tokens(suffix) == seq![token@] + spec_tokens(
                    line@.subrange(pos as int, n as int),
                ));
                assert(spec_tokens(line@) =~= tokens@.map_values(|t: Vec<u8>| t@)
                    + spec_tokens(line@.subrange(pos as int, n as int)));
            }
        }
    }
    proof {
        assert(line@.subrange(n as int, n as int) =~= Seq::empty());
        assert(spec_tokens(line@) =~= tokens@.map_values(|t: Vec<u8>| t@));
    }
    tokens
}

/// The token denotes a number the formats accept: nonempty, all
/// digits, within the 64-bit range.
pub open spec fn token_ok(t: Seq<u8>) -> bool {
    &&& t.len() > 0
    &&& (forall|k: int| 0 <= k < t.len() ==> is_decimal_digit(#[trigger] t[k]))
    &&& decimal_value(t) <= u64::MAX
}

/// Every token of the line denotes a number.
pub open spec fn line_ok(line: Seq<u8>) -> bool {
    forall|k: int|
        0 <= k < spec_tokens(line).len() ==> token_ok(#[trigger] spec_tokens(line)[k])
}

/// The numbers a line denotes, token by token.
pub open spec fn line_numbers(line: Seq<u8>) -> Seq<int> {
    spec_tokens(line).map_values(|t: Seq<u8>| decimal_value(t))
}

/// Every token of every line denotes a number.
pub open spec fn lines_ok(lines: Seq<Vec<u8>>) -> bool {
    forall|k: int| 0 <= k < lines.len() ==> line_ok((#[trigger] lines[k])@)
}

/// The rows of numbers a list of lines denotes.
pub open spec fn lines_rows(lines: Seq<Vec<u8>>) -> Seq<Seq<int>> {
    lines.map_values(|line: Vec<u8>| line_numbers(line@))
}

/// Reads the numbers of one line: succeeds exactly when every token
/// denotes a number, and then returns them in order.
pub fn parse_line_numbers(line: &Vec<u8>) -> (r: Option<Vec<u64>>)
    ensures
        (r is Some) <==> line_ok(line@),
        r matches Some(v) ==> v@.map_values(|x: u64| x as int) == line_numbers(line@),
{
    let tokens = tokenize(line);
    let ghost tv = spec_tokens(line@);
    let n = tokens.len();
    let mut out: Vec<u64> = Vec::new();
    let mut k: usize = 0;
    while k < n
        invariant
            k <= n,
            n == tokens@.len(),
            tokens@.map_values(|t: Vec<u8>| t@) == tv,
            tv == spec_tokens(line@),
            out@.len() == k,
            forall|m: int| 0 <= m < k ==> token_ok(#[trigger] tv[m]),
            forall|m: int|
                0 <= m < k ==> (#[trigger] out@[m]) as int == decimal_value(tv[m]),
        decreases n - k,
    {
        proof {
            assert(tokens@[k as int]@ == tv[k as int]);
        }
        match parse_decimal(tokens[k].as_slice()) {
            Some(value) => {
                out.push(value);
            },
            None => {
                proof {
                    assert(!token_ok(tv[k as int]));
                }
                return None;
            },
        }
        k = k + 1;
    }
    proof {
        assert(out@.map_values(|x: u64| x as int) =~= line_numbers(line@));
    }
    Some(out)
}

/// Writes a number in decimal, most significant digit first.
pub fn render_decimal(n: u64) -> (r: Vec<u8>)
    ensures
        token_ok(r@),
        decimal_value(r@) == n,
    decreases n,
{
    if n < 10 {
        let mut v: Vec<u8> = Vec::new();
        v.push(48 + (n as u8));
        proof {
            assert(v@.len() == 1);
            assert(v@.drop_last() =~= Seq::empty());
            assert(decimal_value(v@.drop_last()) == 0);
            assert(decimal_value(v@) == decimal_value(v@.drop_last()) * 10 + (
            v@.last() - 48));
        }
        v
    } else {
        let mut v = render_decimal(n / 10);
        let ghost prev = v@;
        v.push(48 + ((n % 10) as u8));
        proof {
            assert(v@.drop_last() =~= prev);
            assert(v@.last() == 48 + ((n % 10) as u8));
            assert(decimal_value(v@) == decimal_value(v@.drop_last()) * 10 + (
            v@.last() - 48));
            assert(decimal_value(v@) == (n / 10) * 10 + n % 10);
        }
        v
    }
}

// a line holding one nonempty run of non-separator bytes is that one
// token
proof fn lemma_tokens_single(t: Seq<u8>)
    requires
        t.len() > 0,
        forall|k: int| 0 <= k < t.len() ==> !is_space(#[trigger] t[k]),
    ensures
        spec_tokens(t) == seq![t],
{
    lemma_token_len(t);
    assert(!is_space(t[0]));
    assert(token_len(t) == t.len()) by {
        if token_len(t) < t.len() {
            assert(is_space(t[token_len(t) as int]));
        }
    }
    assert(t.subrange(0, t.len() as int) =~= t);
    let empty_tail = t.subrange(t.len() as int, t.len() as int);
    assert(empty_tail =~= Seq::empty());
    assert(spec_tokens(empty_tail) =~= Seq::empty());
    assert(spec_tokens(t) == seq![t.subrange(0, token_len(t) as int)] + spec_tokens(
        empty_tail,
    ));
    assert(spec_tokens(t) =~= seq![t]);
}

// a separator after a nonempty run splits the line into that token and
// the rest
proof fn lemma_tokens_prepend(t: Seq<u8>, rest: Seq<u8>)
    requires
        t.len() > 0,
        forall|k: int| 0 <= k < t.len() ==> !is_space(#[trigger] t[k]),
    ensures
        spec_tokens(t + seq![32u8] + rest) == seq![t] + spec_tokens(rest),
{
    let s = t + seq![32u8] + rest;
    lemma_token_len(s);
    assert(s[0] == t[0]);
    assert(token_len(s) == t.len()) by {
        assert(is_space(s[t.len() as int]));
        if token_len(s) < t.len() {
            assert(is_space(s[token_len(s) as int]));
            assert(s[token_len(s) as int] == t[token_len(s) as int]);
        }
        if token_len(s) > t.len() {
            assert(!is_space(s[t.len() as int]));
        }
    }
    assert(!is_space(s[0]));
    assert(s.subrange(0, t.len() as int) =~= t);
    let tail = s.subrange(t.len() as int, s.len() as int);
    assert(tail[0] == 32u8);
    assert(tail.drop_first() =~= rest);
    assert(spec_tokens(tail) == spec_tokens(tail.drop_first()));
    assert(spec_tokens(s) == seq![s.subrange(0, token_len(s) as int)] + spec_tokens(
        tail,
    ));
    assert(spec_tokens(s) =~= seq![t] + spec_tokens(rest));
}

// renders the numbers of `row` from position `from` on, separated by
// single spaces
fn render_row_from(row: &Vec<u64>, from: usize) -> (r: Vec<u8>)
    requires
        from <= row@.len(),
    ensures
        line_ok(r@),
        line_numbers(r@) == row@.subrange(from as int, row@.len() as int).map_values(
            |x: u64| x as int,
        ),
    decreases row@.len() - from,
{
    if from == row.len() {
        let r: Vec<u8> = Vec::new();
        proof {
            assert(spec_tokens(r@) =~= Seq::empty());
            assert(line_numbers(r@) =~= row@.subrange(
                from as int,
                row@.len() as int,
            ).map_values(|x: u64| x as int));
        }
        r
    } else {
        let mut r = render_decimal(row[from]);
        let ghost t = r@;
        if from + 1 == row.len() {
            proof {
                lemma_tokens_single(t);
                assert(line_numbers(r@) =~= row@.subrange(
                    from as int,
                    row@.len() as int,
                ).map_values(|x: u64| x as int));
            }
            r
        } else {
            r.push(32);
            let mut rest = render_row_from(row, from + 1);
            let ghost restv = rest@;
            r.append(&mut rest);
            proof {
                assert(r@ =~= t + seq![32u8] + restv);
                lemma_tokens_prepend(t, restv);
                assert(line_numbers(r@) =~= seq![decimal_value(t)] + line_numbers(
                    restv,
                ));
                assert(row@.subrange(from as int, row@.len() as int).map_values(
                    |x: u64| x as int,
                ) =~= seq![row@[from as int] as int] + row@.subrange(
                    from as int + 1,
                    row@.len() as int,
                ).map_values(|x: u64| x as int));
                assert(line_numbers(r@) =~= row@.subrange(
                    from as int,
                    row@.len() as int,
                ).map_values(|x: u64| x as int));
            }
            r
        }
    }
}

/// Writes one row of numbers as a line: the numbers in decimal,
/// separated by single spaces. Reading the line back yields exactly
/// the row.
pub fn render_row(row: &Vec<u64>) -> (r: Vec<u8>)
    ensures
        line_ok(r@),
        line_numbers(r@) == row@.map_values(|x: u64| x as int),
{
    let r = render_row_from(row, 0);
    proof {
        assert(row@.subrange(0, row@.len() as int) =~= row@);
    }
    r
}

} // verus!
