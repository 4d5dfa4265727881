use vstd::prelude::*;

verus! {

/// The lowercase hexadecimal digit for a value below 16.
pub open spec fn hex_digit(d: nat) -> char {
    if d < 10 {
        (('0' as u8) + d) as char
    } else {
        (('a' as u8) + (d - 10)) as char
    }
}

/// The lowest `n` hexadecimal digits of `v`, most significant first, zero-padded.
pub open spec fn hex_of(v: nat, n: nat) -> Seq<char>
    decreases n,
{
    if n == 0 {
        Seq::empty()
    } else {
        hex_of(v / 16, (n - 1) as nat).push(hex_digit(v % 16))
    }
}

/// `Path::join` of a relative `name` onto `dir`: no separator is added after an empty
/// directory or one that already ends in `/`.
pub open spec fn path_join(dir: Seq<char>, name: Seq<char>) -> Seq<char> {
    if dir.len() == 0 {
        name
    } else if dir.last() == '/' {
        dir + name
    } else {
        dir + seq!['/'] + name
    }
}

fn hex_char_str(d: u8) -> (r: &'static str)
    requires
        d < 16,
    ensures
        r@ == seq![hex_digit(d as nat)],
{
    proof {
        reveal_strlit("0");
        reveal_strlit("1");
        reveal_strlit("2");
        reveal_strlit("3");
        reveal_strlit("4");
        reveal_strlit("5");
        reveal_strlit("6");
        reveal_strlit("7");
        reveal_strlit("8");
        reveal_strlit("9");
        reveal_strlit("a");
        reveal_strlit("b");
        reveal_strlit("c");
        reveal_strlit("d");
        reveal_strlit("e");
        reveal_strlit("f");
    }
    let r = match d {
        0 => "0",
        1 => "1",
        2 => "2",
        3 => "3",
        4 => "4",
        5 => "5",
        6 => "6",
        7 => "7",
        8 => "8",
        9 => "9",
        10 => "a",
        11 => "b",
        12 => "c",
        13 => "d",
        14 => "e",
        _ => "f",
    };
    assert(r@ =~= seq![hex_digit(d as nat)]);
    r
}

/// The lowest `n` hexadecimal digit values of `v`, most significant first.
fn hex_digit_values(v: u128, n: usize) -> (r: Vec<u8>)
    ensures
        r@.len() == n,
        forall|i: int| 0 <= i < n ==> #[trigger] r@[i] < 16,
        r@.map_values(|d: u8| hex_digit(d as nat)) == hex_of(v as nat, n as nat),
{
    // Digits come out least significant first; they are reversed at the end.
    let mut low_first: Vec<u8> = Vec::new();
    let mut w = v;
    let mut i: usize = 0;
    while i < n
        invariant
            i <= n,
            low_first@.len() == i,
            forall|k: int| 0 <= k < i ==> #[trigger] low_first@[k] < 16,
            hex_of(v as nat, n as nat) == hex_of(w as nat, (n - i) as nat) + Seq::new(
                i as nat,
                |k: int| hex_digit(low_first@[i - 1 - k] as nat),
            ),
        decreases n - i,
    {
        let d = (w % 16) as u8;
        proof {
            let before = Seq::new(i as nat, |k: int| hex_digit(low_first@[i - 1 - k] as nat));
            let after_digits = low_first@.push(d);
            let after = Seq::new((i + 1) as nat, |k: int| hex_digit(after_digits[i + 1 - 1 - k] as nat));
            assert(hex_of(w as nat, (n - i) as nat) == hex_of((w / 16) as nat, (n - i - 1) as nat).push(
                hex_digit((w % 16) as nat)));
            assert(after =~= seq![hex_digit(d as nat)] + before);
            assert(hex_of(w as nat, (n - i) as nat) + before =~= hex_of((w / 16) as nat, (n - i - 1) as nat)
                + after);
        }
        low_first.push(d);
        w = w / 16;
        i = i + 1;
    }
    let mut r: Vec<u8> = Vec::new();
    let mut j: usize = 0;
    while j < n
        invariant
            j <= n,
            low_first@.len() == n,
            r@.len() == j,
            forall|k: int| 0 <= k < j ==> #[trigger] r@[k] == low_first@[n - 1 - k],
            forall|k: int| 0 <= k < n ==> #[trigger] low_first@[k] < 16,
        decreases n - j,
    {
        r.push(low_first[n - 1 - j]);
        j = j + 1;
    }
    proof {
        assert(hex_of(w as nat, 0) =~= Seq::<char>::empty());
        assert(r@.map_values(|d: u8| hex_digit(d as nat)) =~= hex_of(v as nat, n as nat));
    }
    r
}

/// Appends the digit characters of `digits[from..to]` to `s`.
fn append_hex(s: &mut String, digits: &Vec<u8>, from: usize, to: usize)
    requires
        from <= to <= digits@.len(),
        forall|i: int| 0 <= i < digits@.len() ==> #[trigger] digits@[i] < 16,
    ensures
        final(s)@ == old(s)@ + digits@.map_values(|d: u8| hex_digit(d as nat)).subrange(from as int, to as int),
{
    let ghost start = s@;
    let mut i = from;
    while i < to
        invariant
            from <= i <= to <= digits@.len(),
            forall|k: int| 0 <= k < digits@.len() ==> #[trigger] digits@[k] < 16,
            s@ == start + digits@.map_values(|d: u8| hex_digit(d as nat)).subrange(from as int, i as int),
        decreases to - i,
    {
        let c = hex_char_str(digits[i]);
        s.append(c);
        proof {
            assert(digits@.map_values(|d: u8| hex_digit(d as nat)).subrange(from as int, i + 1) =~=
                digits@.map_values(|d: u8| hex_digit(d as nat)).subrange(from as int, i as int) + c@);
        }
        i = i + 1;
    }
}

/// Lowercase, zero-padded hexadecimal text of the lowest `n` digits of `v`.
pub fn hex_string(v: u128, n: usize) -> (r: String)
    ensures
        r@ == hex_of(v as nat, n as nat),
{
    let digits = hex_digit_values(v, n);
    let mut s = String::new();
    append_hex(&mut s, &digits, 0, n);
    proof {
        assert(digits@.map_values(|d: u8| hex_digit(d as nat)).subrange(0, n as int) =~= hex_of(v as nat, n as nat));
    }
    s
}

/// The hyphenated form of a 128-bit UUID value: 8-4-4-4-12 lowercase hexadecimal digits.
pub open spec fn uuid_text(v: u128) -> Seq<char> {
    let h = hex_of(v as nat, 32);
    h.subrange(0, 8) + seq!['-'] + h.subrange(8, 12) + seq!['-'] + h.subrange(12, 16) + seq!['-']
        + h.subrange(16, 20) + seq!['-'] + h.subrange(20, 32)
}

/// The hyphenated text of a UUID value, as `uuid::Uuid` displays it.
pub fn uuid_string(v: u128) -> (r: String)
    ensures
        r@ == uuid_text(v),
{
    let digits = hex_digit_values(v, 32);
    let mut s = String::new();
    append_hex(&mut s, &digits, 0, 8);
    s.append("-");
    append_hex(&mut s, &digits, 8, 12);
    s.append("-");
    append_hex(&mut s, &digits, 12, 16);
    s.append("-");
    append_hex(&mut s, &digits, 16, 20);
    s.append("-");
    append_hex(&mut s, &digits, 20, 32);
    proof {
        reveal_strlit("-");
        assert(s@ =~= uuid_text(v));
    }
    s
}

/// Joins a relative file name onto a directory path.
pub fn join_path(dir: &str, name: &str) -> (r: String)
    ensures
        r@ == path_join(dir@, name@),
{
    let n = dir.unicode_len();
    let mut s = String::from_str(dir);
    if n == 0 {
        let r = String::from_str(name);
        return r;
    }
    let last = dir.get_char(n - 1);
    if last != '/' {
        s.append("/");
        proof {
            reveal_strlit("/");
        }
    }
    s.append(name);
    proof {
        if last != '/' {
            assert(s@ =~= dir@ + seq!['/'] + name@);
        }
    }
    s
}

} // verus!
