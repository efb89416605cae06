//! Line-oriented CLI commands.
//!
//! Commands:
//!   insert <text>     append text to the end of the document
//!   delete <pos> <n>  delete n characters starting at visible position pos
//!   text              print the current document text
//!   peers             show the number of connected peers
//!   quit  (or q)      exit
use vstd::prelude::*;

use crate::crdt::sequence::{lemma_text_len, text_of, visible_ids};
use crate::network::peer::{
    after_edit, edit_delete, edit_insert, lemma_delete_edit, lemma_insert_edit, lemma_wf_model,
    model_wf, Peer, ReplicaModel,
};
use crate::PeerId;

verus! {

/// Whether `c` has the Unicode `White_Space` property (what `char::is_whitespace` tests).
pub open spec fn is_ws(c: char) -> bool {
    let u = c as u32;
    ||| 0x09 <= u <= 0x0d
    ||| u == 0x20
    ||| u == 0x85
    ||| u == 0xa0
    ||| u == 0x1680
    ||| 0x2000 <= u <= 0x200a
    ||| u == 0x2028
    ||| u == 0x2029
    ||| u == 0x202f
    ||| u == 0x205f
    ||| u == 0x3000
}

pub fn is_whitespace(c: char) -> (r: bool)
    ensures
        r == is_ws(c),
{
    let u = c as u32;
    (0x09 <= u && u <= 0x0d) || u == 0x20 || u == 0x85 || u == 0xa0 || u == 0x1680 || (0x2000 <= u
        && u <= 0x200a) || u == 0x2028 || u == 0x2029 || u == 0x202f || u == 0x205f || u == 0x3000
}

/// The code points with the Unicode `White_Space` property.
pub open spec fn white_space_code_points() -> Set<u32> {
    set![
        0x09u32, 0x0a, 0x0b, 0x0c, 0x0d, 0x20, 0x85, 0xa0, 0x1680,
        0x2000, 0x2001, 0x2002, 0x2003, 0x2004, 0x2005, 0x2006, 0x2007, 0x2008, 0x2009, 0x200a,
        0x2028, 0x2029, 0x202f, 0x205f, 0x3000,
    ]
}

/// What `str::trim` strips is exactly the Unicode `White_Space` characters;
/// in particular no printable ASCII character (letter, digit, punctuation) is
/// whitespace.
pub proof fn lemma_whitespace_is_unicode_white_space(c: char)
    ensures
        is_ws(c) <==> white_space_code_points().contains(c as u32),
        ' ' < c <= '~' ==> !is_ws(c),
{
}

/// Trimming keeps a line that starts and ends with printable ASCII
/// characters whole, punctuation included.
pub proof fn lemma_trim_keeps_printable_ends(s: Seq<char>)
    requires
        s.len() > 0,
        ' ' < s[0] <= '~',
        ' ' < s.last() <= '~',
    ensures
        trim(s) == s,
{
    lemma_whitespace_is_unicode_white_space(s[0]);
    lemma_whitespace_is_unicode_white_space(s.last());
    assert(trim_front(s) == s);
}

/// `s` without leading whitespace.
pub open spec fn trim_front(s: Seq<char>) -> Seq<char>
    decreases s.len(),
{
    if s.len() > 0 && is_ws(s[0]) {
        trim_front(s.drop_first())
    } else {
        s
    }
}

/// `s` without trailing whitespace.
pub open spec fn trim_back(s: Seq<char>) -> Seq<char>
    decreases s.len(),
{
    if s.len() > 0 && is_ws(s.last()) {
        trim_back(s.drop_last())
    } else {
        s
    }
}

/// `s` without leading and trailing whitespace (what `str::trim` gives).
pub open spec fn trim(s: Seq<char>) -> Seq<char> {
    trim_back(trim_front(s))
}

proof fn lemma_trim_front(s: Seq<char>, i: int)
    requires
        0 <= i <= s.len(),
        forall|k: int| 0 <= k < i ==> is_ws(#[trigger] s[k]),
    ensures
        trim_front(s) == trim_front(s.subrange(i, s.len() as int)),
    decreases i,
{
    if i > 0 {
        lemma_trim_front(s.drop_first(), i - 1);
        assert(s.drop_first().subrange(i - 1, s.len() - 1) =~= s.subrange(i, s.len() as int));
    } else {
        assert(s.subrange(0, s.len() as int) =~= s);
    }
}

proof fn lemma_trim_back(s: Seq<char>, j: int)
    requires
        0 <= j <= s.len(),
        forall|k: int| j <= k < s.len() ==> is_ws(#[trigger] s[k]),
    ensures
        trim_back(s) == trim_back(s.subrange(0, j)),
    decreases s.len() - j,
{
    if j < s.len() {
        lemma_trim_back(s.drop_last(), j);
        assert(s.drop_last().subrange(0, j) =~= s.subrange(0, j));
    } else {
        assert(s.subrange(0, j) =~= s);
    }
}

/// The characters of `s`.
pub fn chars_of(s: &str) -> (v: Vec<char>)
    ensures
        v@ == s@,
{
    let mut v: Vec<char> = Vec::new();
    for c in it: s.chars()
        invariant
            it.seq() == s@,
            v@ == s@.take(it.index()),
    {
        proof {
            assert(s@.take(it.index() + 1) =~= s@.take(it.index()).push(c));
        }
        v.push(c);
    }
    proof {
        assert(s@.take(s@.len() as int) =~= s@);
    }
    v
}

/// The characters of `v` from `a` to `b`.
fn slice_chars(v: &Vec<char>, a: usize, b: usize) -> (r: Vec<char>)
    requires
        a <= b <= v.len(),
    ensures
        r@ == v@.subrange(a as int, b as int),
{
    let mut r: Vec<char> = Vec::new();
    let mut i = a;
    while i < b
        invariant
            a <= i <= b <= v.len(),
            r@ == v@.subrange(a as int, i as int),
        decreases b - i,
    {
        r.push(v[i]);
        proof {
            assert(v@.subrange(a as int, i + 1) =~= v@.subrange(a as int, i as int).push(v@[i as int]));
        }
        i = i + 1;
    }
    r
}

/// `v` without leading and trailing whitespace.
pub fn trim_chars(v: &Vec<char>) -> (r: Vec<char>)
    ensures
        r@ == trim(v@),
{
    let mut a: usize = 0;
    while a < v.len() && is_whitespace(v[a])
        invariant
            a <= v.len(),
            forall|k: int| 0 <= k < a ==> is_ws(#[trigger] v@[k]),
        decreases v.len() - a,
    {
        a = a + 1;
    }
    let ghost front = v@.subrange(a as int, v.len() as int);
    proof {
        lemma_trim_front(v@, a as int);
        assert(front.len() == 0 || !is_ws(front[0]));
    }
    let mut b: usize = v.len();
    while b > a && is_whitespace(v[b - 1])
        invariant
            a <= b <= v.len(),
            front == v@.subrange(a as int, v.len() as int),
            forall|k: int| b - a <= k < front.len() ==> is_ws(#[trigger] front[k]),
        decreases b,
    {
        b = b - 1;
    }
    proof {
        lemma_trim_back(front, b - a);
        let kept = front.subrange(0, b - a);
        assert(kept =~= v@.subrange(a as int, b as int));
        assert(kept.len() == 0 || !is_ws(kept.last()));
    }
    slice_chars(v, a, b)
}

/// The part of `s` before its first space and the part after it (what
/// `splitn(2, ' ')` gives); the second part is empty when there is no space.
pub open spec fn split_at_space(s: Seq<char>) -> (Seq<char>, Seq<char>) {
    match s.index_of_first(' ') {
        Some(i) => (s.take(i), s.skip(i + 1)),
        None => (s, Seq::empty()),
    }
}

/// The first whitespace-separated word of `s` and what follows it, None when
/// `s` holds no word (the first step of `split_whitespace`).
pub open spec fn next_word(s: Seq<char>) -> Option<(Seq<char>, Seq<char>)> {
    let t = trim_front(s);
    if t.len() == 0 {
        None
    } else {
        let k = word_end(t, 0);
        Some((t.take(k), t.skip(k)))
    }
}

/// The first index at or after `i` that holds whitespace, or the length.
pub open spec fn word_end(t: Seq<char>, i: int) -> int
    decreases t.len() - i,
{
    if 0 <= i < t.len() && !is_ws(t[i]) {
        word_end(t, i + 1)
    } else {
        i
    }
}

/// The value of a string of ASCII decimal digits.
pub open spec fn digits_value(d: Seq<char>) -> nat
    decreases d.len(),
{
    if d.len() == 0 {
        0
    } else {
        digits_value(d.drop_last()) * 10 + ((d.last() as u32) - 0x30) as nat
    }
}

pub open spec fn is_digit(c: char) -> bool {
    0x30 <= (c as u32) <= 0x39
}

/// What `usize::from_str` gives: an optional `+` then at least one ASCII
/// digit, with a value that fits in `usize`.
pub open spec fn parse_usize(w: Seq<char>) -> Option<usize> {
    let d = unsigned_digits(w);
    if d.len() > 0 && all_digits(d) && digits_value(d) <= usize::MAX {
        Some(digits_value(d) as usize)
    } else {
        None
    }
}

/// `w` without one leading `+`.
pub open spec fn unsigned_digits(w: Seq<char>) -> Seq<char> {
    if w.len() > 0 && w[0] == '+' {
        w.drop_first()
    } else {
        w
    }
}

pub open spec fn all_digits(d: Seq<char>) -> bool {
    forall|i: int| 0 <= i < d.len() ==> is_digit(#[trigger] d[i])
}

/// The position and count arguments of `delete`: the first two words of `rest`, parsed.
pub open spec fn delete_args(rest: Seq<char>) -> (Option<usize>, Option<usize>) {
    match next_word(rest) {
        None => (None, None),
        Some((w1, r1)) => (
            parse_usize(w1),
            match next_word(r1) {
                None => None,
                Some((w2, _)) => parse_usize(w2),
            },
        ),
    }
}

proof fn lemma_word_end(t: Seq<char>, i: int, k: int)
    requires
        0 <= i <= k <= t.len(),
        forall|j: int| i <= j < k ==> !is_ws(#[trigger] t[j]),
        k == t.len() || is_ws(t[k]),
    ensures
        word_end(t, i) == k,
    decreases k - i,
{
    if i < k {
        lemma_word_end(t, i + 1, k);
    }
}

/// Where the next word of `v` after position `start` lies.
fn find_word(v: &Vec<char>, start: usize) -> (r: Option<(usize, usize)>)
    requires
        start <= v.len(),
    ensures
        match r {
            None => next_word(v@.skip(start as int)) is None,
            Some((a, b)) => start <= a < b <= v.len() && next_word(v@.skip(start as int)) == Some(
                (v@.subrange(a as int, b as int), v@.skip(b as int)),
            ),
        },
{
    let ghost s = v@.skip(start as int);
    let mut a = start;
    while a < v.len() && is_whitespace(v[a])
        invariant
            start <= a <= v.len(),
            forall|k: int| start <= k < a ==> is_ws(#[trigger] v@[k]),
        decreases v.len() - a,
    {
        a = a + 1;
    }
    proof {
        assert forall|k: int| 0 <= k < a - start implies is_ws(#[trigger] s[k]) by {
            assert(s[k] == v@[start + k]);
        }
        lemma_trim_front(s, a - start);
        assert(s.subrange(a - start, s.len() as int) =~= v@.skip(a as int));
        let t = v@.skip(a as int);
        assert(t.len() == 0 || !is_ws(t[0]));
    }
    if a == v.len() {
        return None;
    }
    let mut b = a;
    while b < v.len() && !is_whitespace(v[b])
        invariant
            a <= b <= v.len(),
            forall|k: int| a <= k < b ==> !is_ws(#[trigger] v@[k]),
        decreases v.len() - b,
    {
        b = b + 1;
    }
    proof {
        let t = v@.skip(a as int);
        assert forall|j: int| 0 <= j < b - a implies !is_ws(#[trigger] t[j]) by {
            assert(t[j] == v@[a + j]);
        }
        if b < v.len() {
            assert(t[b - a] == v@[b as int]);
        }
        lemma_word_end(t, 0, b - a);
        assert(t.take(b - a) =~= v@.subrange(a as int, b as int));
        assert(t.skip(b - a) =~= v@.skip(b as int));
    }
    Some((a, b))
}

proof fn lemma_digits_prefix(d: Seq<char>, k: int)
    requires
        0 <= k <= d.len(),
        forall|i: int| 0 <= i < d.len() ==> is_digit(#[trigger] d[i]),
    ensures
        digits_value(d.take(k)) <= digits_value(d),
    decreases d.len() - k,
{
    if k < d.len() {
        lemma_digits_prefix(d, k + 1);
        assert(d.take(k + 1).drop_last() =~= d.take(k));
        assert(is_digit(d[k]));
    } else {
        assert(d.take(k) =~= d);
    }
}

/// `usize::from_str` reads decimal: a lone digit is worth its face value, an
/// optional leading `+` changes nothing, and one more digit at the end
/// multiplies the value by ten and adds that digit (while it fits).
pub proof fn lemma_parse_usize_decimal(d: Seq<char>, c: char)
    requires
        all_digits(d),
        '0' <= c <= '9',
    ensures
        parse_usize(seq![c]) == Some((c as u32 - '0' as u32) as usize),
        parse_usize(seq!['+'] + d) == parse_usize(d),
        d.len() > 0 && parse_usize(d) is Some && parse_usize(d)->0 * 10 + (c as u32 - '0' as u32)
            <= usize::MAX ==> parse_usize(d.push(c)) == Some(
            (parse_usize(d)->0 * 10 + (c as u32 - '0' as u32)) as usize,
        ),
        parse_usize(Seq::<char>::empty()) is None,
        parse_usize(seq!['+']) is None,
{
    let one = seq![c];
    assert(one.drop_last() =~= Seq::<char>::empty());
    assert(all_digits(one));
    assert(one[0] == c && one.last() == c);
    assert(unsigned_digits(one) == one);
    assert(digits_value(one.drop_last()) == 0);
    assert(digits_value(one) == (c as u32 - 0x30) as nat);
    assert((seq!['+'] + d).drop_first() =~= d);
    if d.len() > 0 {
        let e = d.push(c);
        assert(e.drop_last() =~= d);
        assert(all_digits(e)) by {
            assert forall|i: int| 0 <= i < e.len() implies is_digit(#[trigger] e[i]) by {
                if i < d.len() {
                    assert(e[i] == d[i]);
                }
            }
        }
        assert(d[0] != '+') by {
            assert(is_digit(d[0]));
        }
        assert(e[0] == d[0]);
    }
}

/// A word with a character other than an ASCII digit, past one leading `+`,
/// is not a number.
pub proof fn lemma_parse_usize_rejects(w: Seq<char>, i: int)
    requires
        0 <= i < w.len(),
        !(i == 0 && w[0] == '+'),
        !('0' as u32 <= w[i] as u32 <= '9' as u32),
    ensures
        parse_usize(w) is None,
{
    let d = unsigned_digits(w);
    if w[0] == '+' {
        assert(d[i - 1] == w[i]);
        assert(!is_digit(d[i - 1]));
    } else {
        assert(!is_digit(d[i]));
    }
}

/// Parse the characters of `w` as `usize::from_str` does.
pub fn parse_usize_chars(w: &Vec<char>) -> (r: Option<usize>)
    ensures
        r == parse_usize(w@),
{
    let start: usize = if w.len() > 0 && w[0] == '+' { 1 } else { 0 };
    let ghost d = w@.skip(start as int);
    proof {
        if w@.len() > 0 && w@[0] == '+' {
            assert(d =~= w@.drop_first());
        } else {
            assert(d =~= w@);
        }
    }
    if start >= w.len() {
        return None;
    }
    let mut value: usize = 0;
    let mut i = start;
    while i < w.len()
        invariant
            start <= i <= w.len(),
            d == w@.skip(start as int),
            d == unsigned_digits(w@),
            forall|k: int| 0 <= k < i - start ==> is_digit(#[trigger] d[k]),
            value == digits_value(d.take(i - start)),
        decreases w.len() - i,
    {
        let c = w[i];
        let u = #[verifier::truncate] (c as u32);
        proof {
            assert(d[i - start] == c);
            assert(d.take(i - start + 1).drop_last() =~= d.take(i - start));
        }
        if !(0x30 <= u && u <= 0x39) {
            proof {
                assert(!is_digit(d[i - start]));
                assert(0 <= i - start < d.len());
                assert(!(forall|k: int| 0 <= k < d.len() ==> is_digit(#[trigger] d[k])));
            }
            return None;
        }
        let digit = (u - 0x30) as usize;
        proof {
            assert(d.take(i - start + 1).last() == c);
            assert(digits_value(d.take(i - start + 1)) == value * 10 + digit);
        }
        match value.checked_mul(10) {
            None => {
                proof {
                    if all_digits(d) {
                        lemma_digits_prefix(d, i - start + 1);
                    }
                }
                return None;
            },
            Some(tens) => match tens.checked_add(digit) {
                None => {
                    proof {
                        if all_digits(d) {
                            lemma_digits_prefix(d, i - start + 1);
                        }
                    }
                    return None;
                },
                Some(v) => {
                    value = v;
                },
            },
        }
        i = i + 1;
    }
    proof {
        assert(d.take(i - start) =~= d);
    }
    Some(value)
}

/// Whether `v` holds exactly the characters of `w`.
fn is_word(v: &Vec<char>, w: &[char]) -> (r: bool)
    ensures
        r == (v@ == w@),
{
    if v.len() != w.len() {
        return false;
    }
    let mut i: usize = 0;
    while i < v.len()
        invariant
            v.len() == w@.len(),
            i <= v.len(),
            forall|k: int| 0 <= k < i ==> v@[k] == w@[k],
        decreases v.len() - i,
    {
        if v[i] != w[i] {
            return false;
        }
        i = i + 1;
    }
    proof {
        assert(v@ =~= w@);
    }
    true
}

/// Split `v` at its first space, as `splitn(2, ' ')` does.
fn split_space(v: &Vec<char>) -> (r: (Vec<char>, Vec<char>))
    ensures
        (r.0@, r.1@) == split_at_space(v@),
{
    let mut i: usize = 0;
    while i < v.len() && v[i] != ' '
        invariant
            i <= v.len(),
            forall|k: int| 0 <= k < i ==> v@[k] != ' ',
        decreases v.len() - i,
    {
        i = i + 1;
    }
    proof {
        v@.index_of_first_ensures(' ');
    }
    if i == v.len() {
        proof {
            if v@.contains(' ') {
                let k = choose|k: int| 0 <= k < v@.len() && v@[k] == ' ';
                assert(v@[k] != ' ');
            }
            assert(v@.take(i as int) =~= v@);
        }
        (slice_chars(v, 0, i), Vec::new())
    } else {
        proof {
            assert(v@.contains(' '));
            let f = v@.index_of_first(' ')->0;
            if f < i {
                assert(v@[f] != ' ');
            }
            if i < f {
                assert(v@[i as int] != ' ');
            }
            assert(v@.take(i as int) =~= v@.subrange(0, i as int));
            assert(v@.skip(i + 1) =~= v@.subrange(i + 1, v@.len() as int));
        }
        (slice_chars(v, 0, i), slice_chars(v, i + 1, v.len()))
    }
}

/// The replica after appending each character of `chars` at the end of the text, in order.
pub open spec fn append_text(me: PeerId, s: ReplicaModel, chars: Seq<char>) -> ReplicaModel
    decreases chars.len(),
{
    if chars.len() == 0 {
        s
    } else {
        let s1 = append_text(me, s, chars.drop_last());
        after_edit(me, s1, edit_insert(me, s1, visible_ids(s1.0).len() as int, chars.last()))
    }
}

/// The replica after deleting the character at visible position `pos`, `count` times.
pub open spec fn delete_repeat(me: PeerId, s: ReplicaModel, pos: int, count: nat) -> ReplicaModel
    decreases count,
{
    if count == 0 {
        s
    } else {
        let s1 = delete_repeat(me, s, pos, (count - 1) as nat);
        after_edit(me, s1, edit_delete(s1, pos))
    }
}

/// What a command line asks the node to show or do next.
#[derive(Debug, Clone, PartialEq, Eq)]
pub enum CliOutcome {
    /// Keep reading commands; `usage_errors` is how many arguments of a
    /// `delete` were missing or not a number (each one prints the usage line).
    Continue { usage_errors: u8 },
    /// Print the document text, then keep reading.
    PrintText(String),
    /// Print the connected peers and the op counts, then keep reading.
    ShowPeers,
    /// The command word is not known; report it and keep reading.
    Unknown(String),
    /// End the session.
    Quit,
}

impl CliOutcome {
    /// Whether the session goes on after this command.
    pub fn keep_going(&self) -> (b: bool)
        ensures
            b == !(self is Quit),
    {
        match self {
            CliOutcome::Quit => false,
            _ => true,
        }
    }
}

pub open spec fn word_insert() -> Seq<char> {
    seq!['i', 'n', 's', 'e', 'r', 't']
}

pub open spec fn word_delete() -> Seq<char> {
    seq!['d', 'e', 'l', 'e', 't', 'e']
}

pub open spec fn word_text() -> Seq<char> {
    seq!['t', 'e', 'x', 't']
}

pub open spec fn word_peers() -> Seq<char> {
    seq!['p', 'e', 'e', 'r', 's']
}

pub open spec fn word_quit() -> Seq<char> {
    seq!['q', 'u', 'i', 't']
}

pub open spec fn word_q() -> Seq<char> {
    seq!['q']
}

fn chars_to_string(v: &Vec<char>) -> (s: String)
    ensures
        s@ == v@,
{
    let mut s = String::new();
    let mut i: usize = 0;
    while i < v.len()
        invariant
            i <= v.len(),
            s@ == v@.take(i as int),
        decreases v.len() - i,
    {
        crate::crdt::sequence::push_char(&mut s, v[i]);
        proof {
            assert(v@.take(i + 1) =~= v@.take(i as int).push(v@[i as int]));
        }
        i = i + 1;
    }
    proof {
        assert(v@.take(i as int) =~= v@);
    }
    s
}

/// Process one command line against `peer`: edits change the replica, the
/// outcome tells the caller what to print and whether to go on.
pub fn process(peer: &mut Peer, line: &str) -> (r: CliOutcome)
    requires
        old(peer).wf(),
    ensures
        final(peer).wf(),
        final(peer).me() == old(peer).me(),
        final(peer).waiting() == old(peer).waiting(),
        ({
            let l = trim(line@);
            let cmd = split_at_space(l).0;
            let rest = trim(split_at_space(l).1);
            let s = old(peer).model();
            let me = old(peer).me();
            if l.len() == 0 {
                r == CliOutcome::Continue { usage_errors: 0 } && final(peer).model() == s
            } else if cmd == word_insert() {
                r == CliOutcome::Continue { usage_errors: 0 } && final(peer).model() == append_text(
                    me,
                    s,
                    rest,
                )
            } else if cmd == word_delete() {
                let (p, c) = delete_args(rest);
                &&& r == CliOutcome::Continue {
                    usage_errors: ((if p is None { 1int } else { 0int }) + (if c is None {
                        1int
                    } else {
                        0int
                    })) as u8,
                }
                &&& final(peer).model() == delete_repeat(
                    me,
                    s,
                    if p is Some { p->0 as int } else { 0 },
                    if c is Some { c->0 as nat } else { 0 },
                )
            } else if cmd == word_text() {
                &&& r matches CliOutcome::PrintText(t)
                &&& t@ == text_of(s.0)
                &&& final(peer).model() == s
            } else if cmd == word_peers() {
                r == CliOutcome::ShowPeers && final(peer).model() == s
            } else if cmd == word_quit() || cmd == word_q() {
                r == CliOutcome::Quit && final(peer).model() == s
            } else {
                &&& r matches CliOutcome::Unknown(w)
                &&& w@ == cmd
                &&& final(peer).model() == s
            }
        }),
{
    let all = chars_of(line);
    let l = trim_chars(&all);
    if l.len() == 0 {
        return CliOutcome::Continue { usage_errors: 0 };
    }
    let (cmd, rest0) = split_space(&l);
    let rest = trim_chars(&rest0);
    let ghost s0 = peer.model();
    let ghost me = peer.me();
    let w_insert = ['i', 'n', 's', 'e', 'r', 't'];
    let w_delete = ['d', 'e', 'l', 'e', 't', 'e'];
    let w_text = ['t', 'e', 'x', 't'];
    let w_peers = ['p', 'e', 'e', 'r', 's'];
    let w_quit = ['q', 'u', 'i', 't'];
    let w_q = ['q'];
    proof {
        assert(w_insert@ =~= word_insert());
        assert(w_delete@ =~= word_delete());
        assert(w_text@ =~= word_text());
        assert(w_peers@ =~= word_peers());
        assert(w_quit@ =~= word_quit());
        assert(w_q@ =~= word_q());
    }
    if is_word(&cmd, &w_insert) {
        let mut i: usize = 0;
        while i < rest.len()
            invariant
                peer.wf(),
                peer.me() == me,
                peer.waiting() == old(peer).waiting(),
                i <= rest.len(),
                peer.model() == append_text(me, s0, rest@.take(i as int)),
            decreases rest.len() - i,
        {
            let t = peer.text();
            let n = chars_of(t.as_str()).len();
            proof {
                lemma_text_len(peer.model().0);
                assert(rest@.take(i + 1).drop_last() =~= rest@.take(i as int));
            }
            let _ = peer.browser_insert(n, rest[i]);
            i = i + 1;
        }
        proof {
            assert(rest@.take(i as int) =~= rest@);
        }
        CliOutcome::Continue { usage_errors: 0 }
    } else if is_word(&cmd, &w_delete) {
        let mut usage_errors: u8 = 0;
        let mut pos: usize = 0;
        let mut count: usize = 0;
        match find_word(&rest, 0) {
            None => {
                usage_errors = 2;
            },
            Some((a, b)) => {
                match parse_usize_chars(&slice_chars(&rest, a, b)) {
                    Some(p) => {
                        pos = p;
                    },
                    None => {
                        usage_errors = 1;
                    },
                }
                match find_word(&rest, b) {
                    None => {
                        usage_errors = usage_errors + 1;
                    },
                    Some((a2, b2)) => match parse_usize_chars(&slice_chars(&rest, a2, b2)) {
                        Some(c) => {
                            count = c;
                        },
                        None => {
                            usage_errors = usage_errors + 1;
                        },
                    },
                }
            },
        }
        proof {
            assert(rest@.skip(0) =~= rest@);
        }
        let mut k: usize = 0;
        while k < count
            invariant
                peer.wf(),
                peer.me() == me,
                peer.waiting() == old(peer).waiting(),
                k <= count,
                peer.model() == delete_repeat(me, s0, pos as int, k as nat),
            decreases count - k,
        {
            let _ = peer.browser_delete(pos);
            k = k + 1;
        }
        CliOutcome::Continue { usage_errors }
    } else if is_word(&cmd, &w_text) {
        CliOutcome::PrintText(peer.text())
    } else if is_word(&cmd, &w_peers) {
        CliOutcome::ShowPeers
    } else if is_word(&cmd, &w_quit) || is_word(&cmd, &w_q) {
        CliOutcome::Quit
    } else {
        CliOutcome::Unknown(chars_to_string(&cmd))
    }
}

/// `t` without the `n` characters from position `pos` on (fewer when the text ends first).
pub open spec fn remove_range(t: Seq<char>, pos: int, n: int) -> Seq<char> {
    if pos >= t.len() {
        t
    } else {
        t.subrange(0, pos) + t.subrange(if pos + n < t.len() { pos + n } else { t.len() as int }, t.len() as int)
    }
}

proof fn lemma_append_text(me: PeerId, s: ReplicaModel, chars: Seq<char>)
    requires
        model_wf(me, s),
        s.1 + chars.len() < u64::MAX,
    ensures
        model_wf(me, append_text(me, s, chars)),
        append_text(me, s, chars).1 == s.1 + chars.len(),
        text_of(append_text(me, s, chars).0) == text_of(s.0) + chars,
    decreases chars.len(),
{
    if chars.len() == 0 {
        assert(text_of(s.0) + chars =~= text_of(s.0));
    } else {
        let init = chars.drop_last();
        lemma_append_text(me, s, init);
        let s1 = append_text(me, s, init);
        let n = visible_ids(s1.0).len() as int;
        lemma_insert_edit(me, s1, n, chars.last());
        assert(text_of(s.0) + init.push(chars.last()) =~= (text_of(s.0) + init).push(chars.last()));
        assert(init.push(chars.last()) =~= chars);
    }
}

/// The `insert` command appends its text to the document text (as long as
/// this peer has ids left for every character).
pub proof fn lemma_insert_command_appends(p: &Peer, chars: Seq<char>)
    requires
        p.wf(),
        p.model().1 + chars.len() < u64::MAX,
    ensures
        text_of(append_text(p.me(), p.model(), chars).0) == text_of(p.model().0) + chars,
{
    lemma_wf_model(p);
    lemma_append_text(p.me(), p.model(), chars);
}

proof fn lemma_delete_repeat(me: PeerId, s: ReplicaModel, pos: int, count: nat)
    requires
        model_wf(me, s),
        0 <= pos,
    ensures
        model_wf(me, delete_repeat(me, s, pos, count)),
        text_of(delete_repeat(me, s, pos, count).0) == remove_range(text_of(s.0), pos, count as int),
    decreases count,
{
    let t = text_of(s.0);
    if count == 0 {
        if pos < t.len() {
            assert(t.subrange(0, pos) + t.subrange(pos, t.len() as int) =~= t);
        }
    } else {
        lemma_delete_repeat(me, s, pos, (count - 1) as nat);
        let s1 = delete_repeat(me, s, pos, (count - 1) as nat);
        let t1 = text_of(s1.0);
        lemma_text_len(s1.0);
        if pos < visible_ids(s1.0).len() {
            lemma_delete_edit(me, s1, pos);
            let end = if pos + count < t.len() { pos + count } else { t.len() as int };
            let end1 = if pos + count - 1 < t.len() { pos + count - 1 } else { t.len() as int };
            assert(pos < t.len());
            assert(t1 == t.subrange(0, pos) + t.subrange(end1, t.len() as int));
            assert(end1 < t.len());
            assert(end == end1 + 1);
            assert(t1.remove(pos) =~= t.subrange(0, pos) + t.subrange(end, t.len() as int));
        } else {
            if pos < t.len() {
                assert(t1.len() == pos + (t.len() - (if pos + count - 1 < t.len() { pos + count - 1 } else { t.len() as int })));
            }
        }
    }
}

/// The `delete <pos> <n>` command removes the `n` characters of the text from
/// position `pos` on (those there are).
pub proof fn lemma_delete_command_removes(p: &Peer, pos: int, count: nat)
    requires
        p.wf(),
        0 <= pos,
    ensures
        text_of(delete_repeat(p.me(), p.model(), pos, count).0) == remove_range(
            text_of(p.model().0),
            pos,
            count as int,
        ),
{
    lemma_wf_model(p);
    lemma_delete_repeat(p.me(), p.model(), pos, count);
}

} // verus!
