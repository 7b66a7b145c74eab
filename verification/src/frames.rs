use vstd::prelude::*;

verus! {

/// The character of a decimal digit `d < 10`.
pub open spec fn digit_char(d: nat) -> char {
    if d == 0 { '0' }
    else if d == 1 { '1' }
    else if d == 2 { '2' }
    else if d == 3 { '3' }
    else if d == 4 { '4' }
    else if d == 5 { '5' }
    else if d == 6 { '6' }
    else if d == 7 { '7' }
    else if d == 8 { '8' }
    else { '9' }
}

/// The decimal numeral of `n`, without leading zeros (`"0"` for zero).
pub open spec fn decimal(n: nat) -> Seq<char>
    decreases n,
{
    if n < 10 {
        seq![digit_char(n)]
    } else {
        decimal(n / 10).push(digit_char(n % 10))
    }
}

/// The decimal numeral of `n`, left-padded with zeros to at least four characters
/// (what the format `{:04}` writes).
pub open spec fn padded4(n: nat) -> Seq<char> {
    let d = decimal(n);
    if d.len() < 4 {
        Seq::new((4 - d.len()) as nat, |i: int| '0') + d
    } else {
        d
    }
}

/// The file name of frame `i` of a recording: `f` + the index padded to four digits + `.png`.
pub open spec fn frame_name(i: nat) -> Seq<char> {
    seq!['f'] + padded4(i) + seq!['.', 'p', 'n', 'g']
}

/// The path of frame `i` inside directory `dir`.
pub open spec fn frame_path_spec(dir: Seq<char>, i: nat) -> Seq<char> {
    dir + seq!['/'] + frame_name(i)
}

/// The value of a decimal digit character.
pub open spec fn digit_value(c: char) -> nat {
    if c == '1' { 1 }
    else if c == '2' { 2 }
    else if c == '3' { 3 }
    else if c == '4' { 4 }
    else if c == '5' { 5 }
    else if c == '6' { 6 }
    else if c == '7' { 7 }
    else if c == '8' { 8 }
    else if c == '9' { 9 }
    else { 0 }
}

/// The number that a string of decimal digits denotes.
pub open spec fn numeral_value(s: Seq<char>) -> nat
    decreases s.len(),
{
    if s.len() == 0 {
        0
    } else {
        numeral_value(s.drop_last()) * 10 + digit_value(s.last())
    }
}

proof fn lemma_decimal_value(n: nat)
    ensures
        numeral_value(decimal(n)) == n,
    decreases n,
{
    if n >= 10 {
        lemma_decimal_value(n / 10);
        assert(decimal(n).drop_last() == decimal(n / 10));
        assert(digit_value(digit_char(n % 10)) == n % 10);
        assert(decimal(n).last() == digit_char(n % 10));
        assert((n / 10) * 10 + n % 10 == n);
    } else {
        assert(digit_value(digit_char(n)) == n);
        assert(decimal(n).drop_last() =~= Seq::<char>::empty());
        assert(numeral_value(Seq::<char>::empty()) == 0);
    }
    assert(numeral_value(decimal(n)) == numeral_value(decimal(n).drop_last()) * 10 + digit_value(
        decimal(n).last(),
    ));
}

proof fn lemma_zeros_value(k: nat, s: Seq<char>)
    ensures
        numeral_value(Seq::new(k, |i: int| '0') + s) == numeral_value(s),
    decreases s.len(), k,
{
    let z = Seq::new(k, |i: int| '0');
    if s.len() == 0 {
        assert(z + s == z);
        if k > 0 {
            assert(z.drop_last() == Seq::new((k - 1) as nat, |i: int| '0'));
            lemma_zeros_value((k - 1) as nat, s);
            assert(Seq::new((k - 1) as nat, |i: int| '0') + s == Seq::new((k - 1) as nat, |i: int| '0'));
        }
    } else {
        assert((z + s).drop_last() == z + s.drop_last());
        lemma_zeros_value(k, s.drop_last());
    }
}

/// The padded numeral still denotes the number itself.
proof fn lemma_padded4_value(n: nat)
    ensures
        numeral_value(padded4(n)) == n,
{
    lemma_decimal_value(n);
    let d = decimal(n);
    if d.len() < 4 {
        lemma_zeros_value((4 - d.len()) as nat, d);
    }
}

/// Distinct frame indices get distinct file names, so no frame of a recording
/// overwrites another, and the files that analysis reads back are told apart.
pub proof fn lemma_frame_names_distinct(i: nat, j: nat)
    requires
        i != j,
    ensures
        frame_name(i) != frame_name(j),
        forall|dir: Seq<char>| frame_path_spec(dir, i) != frame_path_spec(dir, j),
{
    lemma_padded4_value(i);
    lemma_padded4_value(j);
    let a = frame_name(i);
    let b = frame_name(j);
    assert(a.subrange(1, a.len() - 4) == padded4(i));
    assert(b.subrange(1, b.len() - 4) == padded4(j));
    assert forall|dir: Seq<char>| frame_path_spec(dir, i) != frame_path_spec(dir, j) by {
        let p = frame_path_spec(dir, i);
        let q = frame_path_spec(dir, j);
        if p == q {
            assert(p.subrange(dir.len() + 1int, p.len() as int) == a);
            assert(q.subrange(dir.len() + 1int, q.len() as int) == b);
        }
    }
}

/// A one-character string holding the digit `d`.
fn digit_str(d: u32) -> (s: &'static str)
    requires
        d < 10,
    ensures
        s@ == seq![digit_char(d as nat)],
{
    proof {
        reveal_strlit("0");
        reveal_strlit("1");
        reveal_strlit("2");
        reveal_strlit("3");
        reveal_strlit("4");
        reveal_strlit("5");
        reveal_strlit("6");
        reveal_strlit("7");
        reveal_strlit("8");
        reveal_strlit("9");
    }
    if d == 0 { "0" }
    else if d == 1 { "1" }
    else if d == 2 { "2" }
    else if d == 3 { "3" }
    else if d == 4 { "4" }
    else if d == 5 { "5" }
    else if d == 6 { "6" }
    else if d == 7 { "7" }
    else if d == 8 { "8" }
    else { "9" }
}

/// Appends the decimal numeral of `n`, zero-padded to four digits, to `out`.
fn push_padded4(out: &mut String, n: u32)
    ensures
        final(out)@ == old(out)@ + padded4(n as nat),
{
    // Collect the digits below the leading one, least significant first.
    let mut ds: Vec<u32> = Vec::new();
    let mut rest: u32 = n;
    let ghost mut tail: Seq<char> = Seq::empty();
    while rest >= 10
        invariant
            decimal(n as nat) == decimal(rest as nat) + tail,
            tail.len() == ds.len(),
            forall|j: int| 0 <= j < ds.len() ==> ds[j] < 10,
            forall|j: int|
                0 <= j < tail.len() ==> #[trigger] tail[j] == digit_char(
                    ds[ds.len() - 1 - j] as nat,
                ),
        decreases rest,
    {
        let d = rest % 10;
        proof {
            assert(decimal(rest as nat) == decimal((rest / 10) as nat).push(digit_char(d as nat)));
            assert(decimal(rest as nat) + tail == decimal((rest / 10) as nat) + (seq![digit_char(d as nat)] + tail));
        }
        ds.push(d);
        proof {
            tail = seq![digit_char(d as nat)] + tail;
        }
        rest = rest / 10;
    }
    assert(decimal(rest as nat) == seq![digit_char(rest as nat)]);
    assert(decimal(n as nat).len() == ds.len() + 1);
    let ghost start = out@;
    if ds.len() < 3 {
        let count: usize = ds.len() + 1;
        let mut k: usize = count;
        while k < 4
            invariant
                count <= k <= 4,
                out@ == start + Seq::new((k - count) as nat, |i: int| '0'),
            decreases 4 - k,
        {
            proof { reveal_strlit("0"); }
            out.append("0");
            assert(out@ == start + Seq::new((k + 1 - count) as nat, |i: int| '0'));
            k = k + 1;
        }
    }
    let ghost pad = out@.subrange(start.len() as int, out@.len() as int);
    assert(out@ == start + pad);
    assert(padded4(n as nat) == pad + decimal(n as nat));
    out.append(digit_str(rest));
    let mut k: usize = ds.len();
    while k > 0
        invariant
            k <= ds.len(),
            tail.len() == ds.len(),
            forall|j: int| 0 <= j < ds.len() ==> ds[j] < 10,
            forall|j: int|
                0 <= j < tail.len() ==> #[trigger] tail[j] == digit_char(
                    ds[ds.len() - 1 - j] as nat,
                ),
            out@ == start + pad + seq![digit_char(rest as nat)] + tail.subrange(
                0,
                (ds.len() - k) as int,
            ),
        decreases k,
    {
        let d = ds[k - 1];
        let ghost before = out@;
        out.append(digit_str(d));
        proof {
            assert(tail.subrange(0, (ds.len() - k + 1) as int) == tail.subrange(
                0,
                (ds.len() - k) as int,
            ).push(tail[(ds.len() - k) as int]));
        }
        k = k - 1;
    }
    assert(tail.subrange(0, ds.len() as int) == tail);
}

/// The path of frame `i` of a recording in directory `dir`: `dir/f0000.png`, `dir/f0001.png`, ...
/// Recording writes frames under these names and analysis reads them back by the same names.
pub fn frame_path(dir: &str, i: u32) -> (p: String)
    ensures
        p@ == frame_path_spec(dir@, i as nat),
{
    let mut p = String::from_str(dir);
    proof {
        reveal_strlit("/f");
        reveal_strlit(".png");
    }
    p.append("/f");
    push_padded4(&mut p, i);
    p.append(".png");
    p
}

} // verus!
