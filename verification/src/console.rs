use vstd::prelude::*;

verus! {

broadcast use vstd::string::group_string_axioms;

/// `char::is_whitespace`: the characters with the Unicode White_Space property.
pub open spec fn is_space(c: char) -> bool {
    let u = c as u32;
    ||| 0x9 <= u <= 0xd
    ||| u == 0x20
    ||| u == 0x85
    ||| u == 0xa0
    ||| u == 0x1680
    ||| 0x2000 <= u <= 0x200a
    ||| u == 0x2028
    ||| u == 0x2029
    ||| u == 0x202f
    ||| u == 0x205f
    ||| u == 0x3000
}

/// The number of whitespace characters at the start of `s`.
pub open spec fn leading_spaces(s: Seq<char>) -> nat
    decreases s.len(),
{
    if s.len() > 0 && is_space(s[0]) {
        1 + leading_spaces(s.drop_first())
    } else {
        0
    }
}

/// The number of whitespace characters at the end of `s`.
pub open spec fn trailing_spaces(s: Seq<char>) -> nat
    decreases s.len(),
{
    if s.len() > 0 && is_space(s.last()) {
        1 + trailing_spaces(s.drop_last())
    } else {
        0
    }
}

/// `str::trim`: `s` without its leading and trailing whitespace.
pub open spec fn trimmed(s: Seq<char>) -> Seq<char> {
    let lead = leading_spaces(s);
    if lead == s.len() {
        Seq::empty()
    } else {
        s.subrange(lead as int, s.len() - trailing_spaces(s))
    }
}

/// The length of the run of non-whitespace characters at the start of `s`.
pub open spec fn word_len(s: Seq<char>) -> nat
    decreases s.len(),
{
    if s.len() > 0 && !is_space(s[0]) {
        1 + word_len(s.drop_first())
    } else {
        0
    }
}

/// The first word of `s` is the run of non-whitespace characters it starts with.
pub proof fn lemma_word_len(s: Seq<char>)
    ensures
        word_len(s) <= s.len(),
        s.len() > 0 && !is_space(s[0]) ==> word_len(s) >= 1,
        forall|i: int| 0 <= i < word_len(s) ==> !is_space(#[trigger] s[i]),
        word_len(s) < s.len() ==> is_space(s[word_len(s) as int]),
    decreases s.len(),
{
    if s.len() > 0 && !is_space(s[0]) {
        lemma_word_len(s.drop_first());
        assert forall|i: int| 0 <= i < word_len(s) implies !is_space(#[trigger] s[i]) by {
            if i > 0 {
                assert(s[i] == s.drop_first()[i - 1]);
            }
        }
    }
}

/// `str::split_whitespace`: the maximal runs of non-whitespace characters, in order.
pub open spec fn words(s: Seq<char>) -> Seq<Seq<char>>
    decreases s.len(),
{
    if s.len() == 0 {
        Seq::empty()
    } else if is_space(s[0]) {
        words(s.drop_first())
    } else {
        let k = word_len(s);
        proof {
            lemma_word_len(s);
        }
        seq![s.take(k as int)] + words(s.skip(k as int))
    }
}

/// The value of a non-empty run of ASCII decimal digits.
pub open spec fn decimal_value(d: Seq<char>) -> nat
    decreases d.len(),
{
    if d.len() == 0 {
        0
    } else {
        decimal_value(d.drop_last()) * 10 + ((d.last() as u32) - ('0' as u32)) as nat
    }
}

pub open spec fn is_digit(c: char) -> bool {
    '0' <= c && c <= '9'
}

/// A word without its leading `+`, if it has one.
pub open spec fn unsigned_digits(w: Seq<char>) -> Seq<char> {
    if w.len() > 0 && w[0] == '+' { w.drop_first() } else { w }
}

/// Every character is an ASCII decimal digit.
pub open spec fn all_digits(d: Seq<char>) -> bool {
    forall|i: int| 0 <= i < d.len() ==> is_digit(#[trigger] d[i])
}

/// `u64::from_str`: an optional `+`, then one or more ASCII digits whose value fits in 64 bits.
pub open spec fn parse_u64(w: Seq<char>) -> Option<u64> {
    let d = unsigned_digits(w);
    if d.len() == 0 || !all_digits(d) {
        None
    } else if decimal_value(d) > u64::MAX {
        None
    } else {
        Some(decimal_value(d) as u64)
    }
}

/// A command typed at the interactive replay prompt.
#[derive(Debug, Clone, Copy, PartialEq, Eq, Structural)]
pub enum ReplayCommand {
    /// Step to the next event.
    Next,
    /// Step back to the previous event.
    Previous,
    /// Leave the replay.
    Quit,
    /// Jump to the event with this sequence number.
    Goto(u64),
    /// A jump whose argument is not a single number: nothing happens.
    Ignored,
    /// An empty line.
    Empty,
    /// Anything else.
    Unknown,
}

/// `s` begins with `prefix`.
pub open spec fn starts_with(s: Seq<char>, prefix: Seq<char>) -> bool {
    prefix.len() <= s.len() && s.take(prefix.len() as int) == prefix
}

/// The command that a line typed at the replay prompt stands for.
pub open spec fn command_of(line: Seq<char>) -> ReplayCommand {
    let t = trimmed(line);
    if t == seq!['n'] || t == seq!['n', 'e', 'x', 't'] {
        ReplayCommand::Next
    } else if t == seq!['p'] || t == seq!['p', 'r', 'e', 'v'] || t == seq!['p', 'r', 'e', 'v', 'i', 'o', 'u', 's'] {
        ReplayCommand::Previous
    } else if t == seq!['q'] || t == seq!['q', 'u', 'i', 't'] || t == seq!['e', 'x', 'i', 't'] {
        ReplayCommand::Quit
    } else if starts_with(t, seq!['g', ' ']) || starts_with(t, seq!['g', 'o', 't', 'o', ' ']) {
        let parts = words(t);
        if parts.len() == 2 && parse_u64(parts[1]) is Some {
            ReplayCommand::Goto(parse_u64(parts[1]).unwrap())
        } else {
            ReplayCommand::Ignored
        }
    } else if t.len() == 0 {
        ReplayCommand::Empty
    } else {
        ReplayCommand::Unknown
    }
}

fn is_space_char(c: char) -> (r: bool)
    ensures
        r == is_space(c),
{
    let u = c as u32;
    (0x9 <= u && u <= 0xd) || u == 0x20 || u == 0x85 || u == 0xa0 || u == 0x1680 || (0x2000 <= u && u
        <= 0x200a) || u == 0x2028 || u == 0x2029 || u == 0x202f || u == 0x205f || u == 0x3000
}

fn chars_of(line: &str) -> (r: Vec<char>)
    ensures
        r@ == line@,
{
    let mut out: Vec<char> = Vec::new();
    for c in it: line.chars()
        invariant
            it.seq() == line@,
            out@ == it.seq().take(it.index()),
    {
        proof {
            assert(it.seq().take(it.index() + 1) =~= it.seq().take(it.index()).push(c));
        }
        out.push(c);
    }
    assert(line@.take(line@.len() as int) =~= line@);
    out
}

proof fn lemma_leading_spaces(s: Seq<char>)
    ensures
        leading_spaces(s) <= s.len(),
        forall|i: int| 0 <= i < leading_spaces(s) ==> is_space(#[trigger] s[i]),
        leading_spaces(s) < s.len() ==> !is_space(s[leading_spaces(s) as int]),
    decreases s.len(),
{
    if s.len() > 0 && is_space(s[0]) {
        lemma_leading_spaces(s.drop_first());
        assert forall|i: int| 0 <= i < leading_spaces(s) implies is_space(#[trigger] s[i]) by {
            if i > 0 {
                assert(s[i] == s.drop_first()[i - 1]);
            }
        }
    }
}

proof fn lemma_trailing_spaces(s: Seq<char>)
    ensures
        trailing_spaces(s) <= s.len(),
        forall|i: int| s.len() - trailing_spaces(s) <= i < s.len() ==> is_space(#[trigger] s[i]),
        trailing_spaces(s) < s.len() ==> !is_space(s[s.len() - 1 - trailing_spaces(s)]),
    decreases s.len(),
{
    if s.len() > 0 && is_space(s.last()) {
        lemma_trailing_spaces(s.drop_last());
        assert forall|i: int| s.len() - trailing_spaces(s) <= i < s.len() implies is_space(#[trigger] s[i]) by {
            if i < s.len() - 1 {
                assert(s[i] == s.drop_last()[i]);
            }
        }
    }
}

proof fn lemma_leading_spaces_exact(s: Seq<char>, k: int)
    requires
        0 <= k <= s.len(),
        forall|i: int| 0 <= i < k ==> is_space(#[trigger] s[i]),
        k == s.len() || !is_space(s[k]),
    ensures
        leading_spaces(s) == k,
    decreases s.len(),
{
    if k > 0 {
        lemma_leading_spaces_exact(s.drop_first(), k - 1);
    }
}

proof fn lemma_trailing_spaces_exact(s: Seq<char>, k: int)
    requires
        0 <= k <= s.len(),
        forall|i: int| s.len() - k <= i < s.len() ==> is_space(#[trigger] s[i]),
        k == s.len() || !is_space(s[s.len() - 1 - k]),
    ensures
        trailing_spaces(s) == k,
    decreases s.len(),
{
    if k > 0 {
        assert forall|i: int| s.drop_last().len() - (k - 1) <= i < s.drop_last().len() implies is_space(
            #[trigger] s.drop_last()[i],
        ) by {
            assert(s.drop_last()[i] == s[i]);
        }
        lemma_trailing_spaces_exact(s.drop_last(), k - 1);
    }
}

/// The trimmed line, as characters.
fn trim_chars(s: &Vec<char>) -> (r: Vec<char>)
    ensures
        r@ == trimmed(s@),
{
    let n = s.len();
    let mut start: usize = 0;
    while start < n && is_space_char(s[start])
        invariant
            n == s@.len(),
            start <= n,
            forall|i: int| 0 <= i < start ==> is_space(#[trigger] s@[i]),
        decreases n - start,
    {
        start = start + 1;
    }
    proof {
        lemma_leading_spaces_exact(s@, start as int);
    }
    if start == n {
        return Vec::new();
    }
    let mut end: usize = n;
    while end > start && is_space_char(s[end - 1])
        invariant
            n == s@.len(),
            start < n,
            !is_space(s@[start as int]),
            start <= end <= n,
            forall|i: int| end <= i < n ==> is_space(#[trigger] s@[i]),
        decreases end,
    {
        end = end - 1;
    }
    proof {
        lemma_trailing_spaces_exact(s@, (n - end) as int);
    }
    let mut r: Vec<char> = Vec::new();
    let mut i = start;
    while i < end
        invariant
            start <= i <= end <= n,
            n == s@.len(),
            r@ == s@.subrange(start as int, i as int),
        decreases end - i,
    {
        r.push(s[i]);
        proof {
            assert(s@.subrange(start as int, i + 1) =~= s@.subrange(start as int, i as int).push(s@[i as int]));
        }
        i = i + 1;
    }
    r
}

fn same_chars(s: &Vec<char>, word: &str) -> (r: bool)
    ensures
        r == (s@ == word@),
{
    let w = chars_of(word);
    if s.len() != w.len() {
        return false;
    }
    let n = s.len();
    for i in 0..n
        invariant
            n == s@.len(),
            n == w@.len(),
            w@ == word@,
            forall|j: int| 0 <= j < i ==> s@[j] == w@[j],
    {
        if s[i] != w[i] {
            return false;
        }
    }
    assert(s@ =~= w@);
    true
}

fn starts_with_chars(s: &Vec<char>, prefix: &str) -> (r: bool)
    ensures
        r == starts_with(s@, prefix@),
{
    let p = chars_of(prefix);
    if p.len() > s.len() {
        return false;
    }
    let n = p.len();
    for i in 0..n
        invariant
            n == p@.len(),
            n <= s@.len(),
            p@ == prefix@,
            forall|j: int| 0 <= j < i ==> s@[j] == p@[j],
    {
        if s[i] != p[i] {
            return false;
        }
    }
    assert(s@.take(n as int) =~= p@);
    true
}

proof fn lemma_word_len_exact(s: Seq<char>, k: int)
    requires
        0 <= k <= s.len(),
        forall|i: int| 0 <= i < k ==> !is_space(#[trigger] s[i]),
        k == s.len() || is_space(s[k]),
    ensures
        word_len(s) == k,
    decreases s.len(),
{
    if k > 0 {
        lemma_word_len_exact(s.drop_first(), k - 1);
    }
}

fn split_words(s: &Vec<char>) -> (r: Vec<Vec<char>>)
    ensures
        r@.map_values(|w: Vec<char>| w@) == words(s@),
{
    let n = s.len();
    let mut out: Vec<Vec<char>> = Vec::new();
    let mut i: usize = 0;
    assert(s@.skip(0) =~= s@);
    assert(out@.map_values(|w: Vec<char>| w@) + words(s@) =~= words(s@));
    while i < n
        invariant
            n == s@.len(),
            i <= n,
            words(s@) == out@.map_values(|w: Vec<char>| w@) + words(s@.skip(i as int)),
        decreases n - i,
    {
        let ghost rest = s@.skip(i as int);
        assert(rest[0] == s@[i as int]);
        if is_space_char(s[i]) {
            assert(rest.drop_first() =~= s@.skip(i + 1));
            i = i + 1;
        } else {
            let start = i;
            let mut w: Vec<char> = Vec::new();
            while i < n && !is_space_char(s[i])
                invariant
                    n == s@.len(),
                    start <= i <= n,
                    w@ == s@.subrange(start as int, i as int),
                    forall|j: int| start <= j < i ==> !is_space(#[trigger] s@[j]),
                decreases n - i,
            {
                w.push(s[i]);
                proof {
                    assert(s@.subrange(start as int, i + 1) =~= s@.subrange(start as int, i as int).push(s@[i as int]));
                }
                i = i + 1;
            }
            proof {
                let k = i - start;
                assert forall|j: int| 0 <= j < k implies !is_space(#[trigger] rest[j]) by {
                    assert(rest[j] == s@[start + j]);
                }
                if k < rest.len() {
                    assert(rest[k] == s@[i as int]);
                }
                lemma_word_len_exact(rest, k as int);
                assert(rest.take(k as int) =~= w@);
                assert(rest.skip(k as int) =~= s@.skip(i as int));
            }
            let ghost before = out@.map_values(|w: Vec<char>| w@);
            out.push(w);
            proof {
                assert(out@.map_values(|w: Vec<char>| w@) =~= before.push(s@.subrange(start as int, i as int)));
                assert(before + (seq![s@.subrange(start as int, i as int)] + words(s@.skip(i as int))) =~= out@.map_values(
                    |w: Vec<char>| w@,
                ) + words(s@.skip(i as int)));
            }
        }
    }
    assert(s@.skip(n as int) =~= Seq::<char>::empty());
    assert(out@.map_values(|w: Vec<char>| w@) + Seq::<Seq<char>>::empty() =~= out@.map_values(|w: Vec<char>| w@));
    out
}

proof fn lemma_decimal_grows(d: Seq<char>)
    requires
        d.len() > 0,
    ensures
        decimal_value(d) >= decimal_value(d.drop_last()),
{
}

fn parse_decimal(w: &Vec<char>) -> (r: Option<u64>)
    ensures
        r == parse_u64(w@),
{
    let n = w.len();
    let start: usize = if n > 0 && w[0] == '+' { 1 } else { 0 };
    let ghost d = unsigned_digits(w@);
    assert(d =~= w@.subrange(start as int, n as int));
    if start == n {
        return None;
    }
    let mut v: u64 = 0;
    let mut overflow = false;
    assert(w@.subrange(start as int, start as int) =~= Seq::<char>::empty());
    for i in start..n
        invariant
            n == w@.len(),
            start < n,
            d == w@.subrange(start as int, n as int),
            d == unsigned_digits(w@),
            forall|j: int| start <= j < i ==> is_digit(#[trigger] w@[j]),
            !overflow ==> v == decimal_value(w@.subrange(start as int, i as int)),
            overflow ==> decimal_value(w@.subrange(start as int, i as int)) > u64::MAX,
    {
        let c = w[i];
        if !(c >= '0' && c <= '9') {
            assert(d[i - start] == c);
            assert(!is_digit(d[i - start]));
            return None;
        }
        let digit = ((c as u32) - ('0' as u32)) as u64;
        let ghost prefix = w@.subrange(start as int, i + 1);
        assert(prefix.drop_last() =~= w@.subrange(start as int, i as int));
        assert(prefix.last() == c);
        if !overflow {
            match v.checked_mul(10) {
                Some(m) => match m.checked_add(digit) {
                    Some(x) => {
                        v = x;
                    },
                    None => {
                        overflow = true;
                    },
                },
                None => {
                    overflow = true;
                },
            }
        } else {
            proof {
                lemma_decimal_grows(prefix);
            }
        }
    }
    assert(w@.subrange(start as int, n as int) == d);
    assert forall|j: int| 0 <= j < d.len() implies is_digit(#[trigger] d[j]) by {
        assert(d[j] == w@[start + j]);
    }
    if overflow {
        None
    } else {
        Some(v)
    }
}

/// The command that a line typed at the replay prompt stands for.
pub fn parse_replay_command(line: &str) -> (r: ReplayCommand)
    ensures
        r == command_of(line@),
{
    proof {
        reveal_strlit("n");
        reveal_strlit("next");
        reveal_strlit("p");
        reveal_strlit("prev");
        reveal_strlit("previous");
        reveal_strlit("q");
        reveal_strlit("quit");
        reveal_strlit("exit");
        reveal_strlit("g ");
        reveal_strlit("goto ");
        assert("n"@ =~= seq!['n']);
        assert("next"@ =~= seq!['n', 'e', 'x', 't']);
        assert("p"@ =~= seq!['p']);
        assert("prev"@ =~= seq!['p', 'r', 'e', 'v']);
        assert("previous"@ =~= seq!['p', 'r', 'e', 'v', 'i', 'o', 'u', 's']);
        assert("q"@ =~= seq!['q']);
        assert("quit"@ =~= seq!['q', 'u', 'i', 't']);
        assert("exit"@ =~= seq!['e', 'x', 'i', 't']);
        assert("g "@ =~= seq!['g', ' ']);
        assert("goto "@ =~= seq!['g', 'o', 't', 'o', ' ']);
    }
    let chars = chars_of(line);
    let t = trim_chars(&chars);
    if same_chars(&t, "n") || same_chars(&t, "next") {
        ReplayCommand::Next
    } else if same_chars(&t, "p") || same_chars(&t, "prev") || same_chars(&t, "previous") {
        ReplayCommand::Previous
    } else if same_chars(&t, "q") || same_chars(&t, "quit") || same_chars(&t, "exit") {
        ReplayCommand::Quit
    } else if starts_with_chars(&t, "g ") || starts_with_chars(&t, "goto ") {
        let parts = split_words(&t);
        assert(parts@.len() == words(t@).len());
        if parts.len() == 2 {
            assert(parts@[1]@ == words(t@)[1]);
            match parse_decimal(&parts[1]) {
                Some(step) => ReplayCommand::Goto(step),
                None => ReplayCommand::Ignored,
            }
        } else {
            ReplayCommand::Ignored
        }
    } else if t.len() == 0 {
        ReplayCommand::Empty
    } else {
        ReplayCommand::Unknown
    }
}

} // verus!
