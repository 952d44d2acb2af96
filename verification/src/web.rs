//! Request parsing for the local development web server: splitting a raw http request,
//! and reading a field from a query string or from a flat json body.
use vstd::prelude::*;

use crate::api_logic::{parse_player, MoveInput, DEFAULT_DEPTH};
use crate::board::Player;
use crate::text::{
    chars_of, decimal, first_non_space, is_space, lemma_lead_spaces, parse_u32, parse_u64,
    parse_unsigned, push_decimal, push_str, same_chars, slice_chars, space, string_from_chars,
    trim_start,
};

verus! {

/// `pat` occurs in `s` at index `i`.
pub open spec fn matches_at(s: Seq<char>, pat: Seq<char>, i: int) -> bool {
    0 <= i && i + pat.len() <= s.len() && s.subrange(i, i + pat.len()) == pat
}

/// The first index at or after `i` where `pat` occurs in `s`.
pub open spec fn find_from(s: Seq<char>, pat: Seq<char>, i: int) -> Option<int>
    decreases s.len() + 1 - i,
{
    if i < 0 || i + pat.len() > s.len() {
        None
    } else if matches_at(s, pat, i) {
        Some(i)
    } else {
        find_from(s, pat, i + 1)
    }
}

/// The first index where `pat` occurs in `s`.
pub open spec fn find(s: Seq<char>, pat: Seq<char>) -> Option<int> {
    find_from(s, pat, 0)
}

pub proof fn lemma_find_from(s: Seq<char>, pat: Seq<char>, i: int)
    ensures
        find_from(s, pat, i) matches Some(k) ==> i <= k && k + pat.len() <= s.len() && matches_at(
            s,
            pat,
            k,
        ),
    decreases s.len() + 1 - i,
{
    if !(i < 0 || i + pat.len() > s.len()) && !matches_at(s, pat, i) {
        lemma_find_from(s, pat, i + 1);
    }
}

/// `pat` occurs in `s` at index `i`.
fn matches_here(s: &Vec<char>, pat: &Vec<char>, i: usize) -> (r: bool)
    requires
        i + pat.len() <= s.len(),
    ensures
        r == matches_at(s@, pat@, i as int),
{
    let mut k: usize = 0;
    while k < pat.len()
        invariant
            k <= pat.len(),
            i + pat.len() <= s.len(),
            forall|t: int| 0 <= t < k ==> s@[i + t] == pat@[t],
        decreases pat.len() - k,
    {
        if s[i + k] != pat[k] {
            proof {
                assert(s@.subrange(i as int, i + pat.len())[k as int] != pat@[k as int]);
            }
            return false;
        }
        k = k + 1;
    }
    proof {
        assert(s@.subrange(i as int, i + pat.len()) =~= pat@);
    }
    true
}

/// The first index where `pat` occurs in `s`.
fn find_chars(s: &Vec<char>, pat: &Vec<char>) -> (r: Option<usize>)
    ensures
        r matches Some(k) ==> find(s@, pat@) == Some(k as int),
        r is None ==> find(s@, pat@) is None,
{
    if pat.len() > s.len() {
        return None;
    }
    let last = s.len() - pat.len();
    let mut i: usize = 0;
    loop
        invariant
            last == s.len() - pat.len(),
            i <= last,
            find(s@, pat@) == find_from(s@, pat@, i as int),
        decreases last - i,
    {
        if matches_here(s, pat, i) {
            return Some(i);
        }
        if i == last {
            return None;
        }
        i = i + 1;
    }
}

/// The request head and body, split at the first blank line.
pub open spec fn request_parts(request: Seq<char>) -> (Seq<char>, Seq<char>) {
    match find(request, "\r\n\r\n"@) {
        Some(i) => (request.subrange(0, i), request.subrange(i + 4, request.len() as int)),
        None => (request, Seq::empty()),
    }
}

/// Splits a raw http request into its head and its body.
pub fn split_request(request: &str) -> (r: (String, String))
    ensures
        r.0@ == request_parts(request@).0,
        r.1@ == request_parts(request@).1,
{
    let chars = chars_of(request);
    let separator = chars_of("\r\n\r\n");
    proof {
        reveal_strlit("\r\n\r\n");
    }
    match find_chars(&chars, &separator) {
        Some(i) => {
            proof {
                lemma_find_from(chars@, separator@, 0);
            }
            let head = slice_chars(&chars, 0, i);
            let body = slice_chars(&chars, i + 4, chars.len());
            (string_from_chars(head), string_from_chars(body))
        },
        None => {
            let empty: Vec<char> = Vec::new();
            proof {
                assert(chars@.subrange(0, chars@.len() as int) =~= chars@);
            }
            (string_from_chars(chars), string_from_chars(empty))
        },
    }
}


/// Where the first part of `q` ends: at its first `&`, or at its end.
pub open spec fn part_end(q: Seq<char>) -> int {
    match find(q, seq!['&']) {
        Some(i) => i,
        None => q.len() as int,
    }
}

/// The value of a `key=value` part whose key is `field`.
pub open spec fn part_value(part: Seq<char>, field: Seq<char>) -> Option<Seq<char>> {
    match find(part, seq!['=']) {
        Some(j) => if part.subrange(0, j) == field {
            Some(part.subrange(j + 1, part.len() as int))
        } else {
            None
        },
        None => None,
    }
}

/// The value of the first `&`-separated part of `q` whose key is `field`.
pub open spec fn query_lookup(q: Seq<char>, field: Seq<char>) -> Option<Seq<char>>
    decreases q.len(),
{
    let end = part_end(q);
    let hit = part_value(q.subrange(0, end), field);
    if hit is Some {
        hit
    } else if end >= q.len() {
        None
    } else {
        proof {
            lemma_find_from(q, seq!['&'], 0);
        }
        query_lookup(q.subrange(end + 1, q.len() as int), field)
    }
}

/// The value of `field` in the query string of a request path, if the path has one.
pub open spec fn query_value(path: Seq<char>, field: Seq<char>) -> Option<Seq<char>> {
    match find(path, seq!['?']) {
        Some(i) => query_lookup(path.subrange(i + 1, path.len() as int), field),
        None => None,
    }
}

pub open spec fn opt_view(r: Option<String>) -> Option<Seq<char>> {
    match r {
        Some(s) => Some(s@),
        None => None,
    }
}

fn single(c: char) -> (v: Vec<char>)
    ensures
        v@ == seq![c],
{
    let mut v: Vec<char> = Vec::new();
    v.push(c);
    proof {
        assert(v@ =~= seq![c]);
    }
    v
}

fn part_lookup(part: &Vec<char>, field: &Vec<char>) -> (r: Option<Vec<char>>)
    ensures
        match r {
            Some(v) => part_value(part@, field@) == Some(v@),
            None => part_value(part@, field@) is None,
        },
{
    let eq = single('=');
    match find_chars(part, &eq) {
        Some(j) => {
            proof {
                lemma_find_from(part@, eq@, 0);
                assert(find_from(part@, eq@, 0) == Some(j as int));
                assert(j + 1 <= part.len());
            }
            let key = slice_chars(part, 0, j);
            if same_chars(&key, field) {
                Some(slice_chars(part, j + 1, part.len()))
            } else {
                None
            }
        },
        None => None,
    }
}

fn lookup(q: &Vec<char>, field: &Vec<char>) -> (r: Option<Vec<char>>)
    ensures
        match r {
            Some(v) => query_lookup(q@, field@) == Some(v@),
            None => query_lookup(q@, field@) is None,
        },
    decreases q.len(),
{
    let amp = single('&');
    let end = match find_chars(q, &amp) {
        Some(i) => i,
        None => q.len(),
    };
    proof {
        lemma_find_from(q@, amp@, 0);
    }
    let part = slice_chars(q, 0, end);
    match part_lookup(&part, field) {
        Some(v) => Some(v),
        None => {
            if end >= q.len() {
                None
            } else {
                let rest = slice_chars(q, end + 1, q.len());
                lookup(&rest, field)
            }
        },
    }
}

/// Reads a field from the query string of a request path.
pub fn query_field(path: &str, field: &str) -> (r: Option<String>)
    ensures
        opt_view(r) == query_value(path@, field@),
{
    let p = chars_of(path);
    let f = chars_of(field);
    let question = single('?');
    let start = match find_chars(&p, &question) {
        Some(i) => i,
        None => {
            return None;
        },
    };
    proof {
        lemma_find_from(p@, question@, 0);
        assert(find_from(p@, question@, 0) == Some(start as int));
        assert(start + 1 <= p.len());
    }
    let q = slice_chars(&p, start + 1, p.len());
    match lookup(&q, &f) {
        Some(v) => Some(string_from_chars(v)),
        None => None,
    }
}


/// `a` in front of the result, if any.
pub open spec fn prefix_with(a: Seq<char>, o: Option<Seq<char>>) -> Option<Seq<char>> {
    match o {
        Some(r) => Some(a + r),
        None => None,
    }
}

/// Reads the rest of a json string literal from index `i` (just after an unconsumed
/// backslash when `escaped`), up to its closing quote; a backslash keeps the character
/// after it. `None` when the closing quote is missing.
pub open spec fn unquote_from(s: Seq<char>, i: int, escaped: bool) -> Option<Seq<char>>
    decreases s.len() - i,
{
    if i < 0 || i >= s.len() {
        None
    } else if escaped {
        prefix_with(seq![s[i]], unquote_from(s, i + 1, false))
    } else if s[i] == '\\' {
        unquote_from(s, i + 1, true)
    } else if s[i] == '"' {
        Some(Seq::empty())
    } else {
        prefix_with(seq![s[i]], unquote_from(s, i + 1, false))
    }
}

/// Number of leading ASCII digits.
pub open spec fn digit_run(s: Seq<char>) -> nat
    decreases s.len(),
{
    if s.len() > 0 && '0' <= s[0] <= '9' {
        1 + digit_run(s.drop_first())
    } else {
        0
    }
}

/// The value of `"field"` in a flat json object: a string literal (unescaped) or a run
/// of digits.
pub open spec fn json_value(body: Seq<char>, field: Seq<char>) -> Option<Seq<char>> {
    let needle = "\""@ + field + "\""@;
    match find(body, needle) {
        None => None,
        Some(i) => {
            let after_name = trim_start(body.subrange(i + needle.len(), body.len() as int));
            if after_name.len() == 0 || after_name[0] != ':' {
                None
            } else {
                let v = trim_start(after_name.subrange(1, after_name.len() as int));
                if v.len() > 0 && v[0] == '"' {
                    unquote_from(v, 1, false)
                } else if digit_run(v) == 0 {
                    None
                } else {
                    Some(v.subrange(0, digit_run(v) as int))
                }
            }
        },
    }
}

/// `v` without its leading whitespace.
fn skip_spaces(v: &Vec<char>) -> (r: Vec<char>)
    ensures
        r@ == trim_start(v@),
{
    let start = first_non_space(v);
    proof {
        lemma_lead_spaces(v@);
    }
    slice_chars(v, start, v.len())
}

proof fn lemma_digit_run(s: Seq<char>, k: int)
    requires
        0 <= k <= s.len(),
        forall|t: int| 0 <= t < k ==> '0' <= #[trigger] s[t] <= '9',
    ensures
        digit_run(s) == k + digit_run(s.subrange(k, s.len() as int)),
    decreases k,
{
    if k > 0 {
        let d = s.drop_first();
        assert forall|t: int| 0 <= t < k - 1 implies '0' <= #[trigger] d[t] <= '9' by {
            assert(d[t] == s[t + 1]);
        }
        lemma_digit_run(d, k - 1);
        assert(d.subrange(k - 1, d.len() as int) =~= s.subrange(k, s.len() as int));
    } else {
        assert(s.subrange(0, s.len() as int) =~= s);
    }
}

/// Reads a field of a flat json request body: a string value (unescaped) or digits.
pub fn json_field(body: &str, field: &str) -> (r: Option<String>)
    ensures
        opt_view(r) == json_value(body@, field@),
{
    let b = chars_of(body);
    let mut needle: Vec<char> = Vec::new();
    push_str(&mut needle, "\"");
    push_str(&mut needle, field);
    push_str(&mut needle, "\"");
    proof {
        assert(needle@ =~= "\""@ + field@ + "\""@);
    }
    let at = match find_chars(&b, &needle) {
        Some(at) => at,
        None => {
            return None;
        },
    };
    proof {
        lemma_find_from(b@, needle@, 0);
        assert(find_from(b@, needle@, 0) == Some(at as int));
        assert(at + needle.len() <= b.len());
    }
    let rest = slice_chars(&b, at + needle.len(), b.len());
    let after_name = skip_spaces(&rest);
    if after_name.len() == 0 || after_name[0] != ':' {
        return None;
    }
    let tail = slice_chars(&after_name, 1, after_name.len());
    let v = skip_spaces(&tail);
    if v.len() > 0 && v[0] == '"' {
        let mut value: Vec<char> = Vec::new();
        let mut escaped = false;
        let mut i: usize = 1;
        proof {
            assert(json_value(body@, field@) == unquote_from(v@, 1, false));
        }
        while i < v.len()
            invariant
                1 <= i <= v.len(),
                json_value(body@, field@) == unquote_from(v@, 1, false),
                unquote_from(v@, 1, false) == prefix_with(value@, unquote_from(v@, i as int, escaped)),
            decreases v.len() - i,
        {
            let ch = v[i];
            let ghost before = value@;
            if escaped {
                value.push(ch);
                escaped = false;
                proof {
                    assert(before + seq![ch] =~= value@);
                    assert(forall|x: Seq<char>| #[trigger] (before + (seq![ch] + x)) =~= value@ + x);
                }
            } else if ch == '\\' {
                escaped = true;
            } else if ch == '"' {
                proof {
                    assert(value@ + Seq::<char>::empty() =~= value@);
                    assert(unquote_from(v@, i as int, escaped) == Some(Seq::<char>::empty()));
                    assert(unquote_from(v@, 1, false) == Some(value@));
                }
                return Some(string_from_chars(value));
            } else {
                value.push(ch);
                proof {
                    assert(forall|x: Seq<char>| #[trigger] (before + (seq![ch] + x)) =~= value@ + x);
                }
            }
            i = i + 1;
        }
        None
    } else {
        let mut k: usize = 0;
        while k < v.len() && '0' <= v[k] && v[k] <= '9'
            invariant
                k <= v.len(),
                forall|t: int| 0 <= t < k ==> '0' <= #[trigger] v@[t] <= '9',
            decreases v.len() - k,
        {
            k = k + 1;
        }
        proof {
            lemma_digit_run(v@, k as int);
        }
        if k == 0 {
            None
        } else {
            let digits = slice_chars(&v, 0, k);
            Some(string_from_chars(digits))
        }
    }
}


/// The player named exactly `Black` or `White`.
pub open spec fn player_named(v: Seq<char>) -> Option<Player> {
    if v == "Black"@ {
        Some(Player::Black)
    } else if v == "White"@ {
        Some(Player::White)
    } else {
        None
    }
}

/// A body field read as an unsigned integer no larger than `max`.
pub open spec fn body_number(body: Seq<char>, name: Seq<char>, max: nat) -> Option<nat> {
    match json_value(body, name) {
        Some(v) => parse_unsigned(v, max),
        None => None,
    }
}

/// A body field read as a player name.
pub open spec fn body_player(body: Seq<char>, name: Seq<char>) -> Option<Player> {
    match json_value(body, name) {
        Some(v) => player_named(v),
        None => None,
    }
}

/// Reads a move request from a flat json body. `black`, `white` (decimal bitboards),
/// `currentPlayer` and `move` are required; `humanPlayer` defaults to black and `depth`
/// to the default search depth.
pub fn move_request(body: &str) -> (r: Result<MoveInput, String>)
    ensures
        ({
            let b = body@;
            if body_number(b, "black"@, u64::MAX as nat) is None {
                r matches Err(e) && e@ == "Missing or invalid black bitboard"@
            } else if body_number(b, "white"@, u64::MAX as nat) is None {
                r matches Err(e) && e@ == "Missing or invalid white bitboard"@
            } else if body_player(b, "currentPlayer"@) is None {
                r matches Err(e) && e@ == "Missing or invalid current player"@
            } else if json_value(b, "move"@) is None {
                r matches Err(e) && e@ == "Missing move"@
            } else {
                r matches Ok(m) && m.black == body_number(b, "black"@, u64::MAX as nat)->0
                    && m.white == body_number(b, "white"@, u64::MAX as nat)->0
                    && m.current_player == body_player(b, "currentPlayer"@)->0 && m.human_player
                    == (match body_player(b, "humanPlayer"@) {
                    Some(p) => p,
                    None => Player::Black,
                }) && m.move_coord@ == json_value(b, "move"@)->0 && m.depth == (match body_number(
                    b,
                    "depth"@,
                    u32::MAX as nat,
                ) {
                    Some(d) => d,
                    None => DEFAULT_DEPTH as nat,
                })
            }
        }),
{
    let black = match json_field(body, "black") {
        Some(v) => parse_u64(v.as_str()),
        None => None,
    };
    let black = match black {
        Some(v) => v,
        None => {
            return Err("Missing or invalid black bitboard".to_owned());
        },
    };
    let white = match json_field(body, "white") {
        Some(v) => parse_u64(v.as_str()),
        None => None,
    };
    let white = match white {
        Some(v) => v,
        None => {
            return Err("Missing or invalid white bitboard".to_owned());
        },
    };
    let current_player = match json_field(body, "currentPlayer") {
        Some(v) => parse_player(v.as_str()),
        None => None,
    };
    let current_player = match current_player {
        Some(p) => p,
        None => {
            return Err("Missing or invalid current player".to_owned());
        },
    };
    let human_player = match json_field(body, "humanPlayer") {
        Some(v) => parse_player(v.as_str()),
        None => None,
    };
    let human_player = match human_player {
        Some(p) => p,
        None => Player::Black,
    };
    let move_coord = match json_field(body, "move") {
        Some(v) => v,
        None => {
            return Err("Missing move".to_owned());
        },
    };
    let depth = match json_field(body, "depth") {
        Some(v) => parse_u32(v.as_str()),
        None => None,
    };
    let depth = match depth {
        Some(d) => d,
        None => DEFAULT_DEPTH,
    };
    Ok(MoveInput { black, white, current_player, human_player, move_coord, depth })
}

/// The search depth and the human's side asked for by a new-game path: the `depth` and
/// `human` query fields, by default the default depth and black.
pub fn new_game_params(path: &str) -> (r: (u32, Player))
    ensures
        r.0 == (match query_value(path@, "depth"@) {
            Some(v) => match parse_unsigned(v, u32::MAX as nat) {
                Some(d) => d,
                None => DEFAULT_DEPTH as nat,
            },
            None => DEFAULT_DEPTH as nat,
        }),
        r.1 == (match query_value(path@, "human"@) {
            Some(v) => match player_named(v) {
                Some(p) => p,
                None => Player::Black,
            },
            None => Player::Black,
        }),
{
    let depth = match query_field(path, "depth") {
        Some(v) => match parse_u32(v.as_str()) {
            Some(d) => d,
            None => DEFAULT_DEPTH,
        },
        None => DEFAULT_DEPTH,
    };
    let human = match query_field(path, "human") {
        Some(v) => match parse_player(v.as_str()) {
            Some(p) => p,
            None => Player::Black,
        },
        None => Player::Black,
    };
    (depth, human)
}


/// Index of the first line ending (`\n`) at or after `i`, or the end of `s`.
pub open spec fn line_end(s: Seq<char>, i: int) -> int
    decreases s.len() - i,
{
    if 0 <= i < s.len() && s[i] != '\n' {
        line_end(s, i + 1)
    } else {
        i
    }
}

/// Index of the first non-whitespace character at or after `i`, or the end of `s`.
pub open spec fn space_end(s: Seq<char>, i: int) -> int
    decreases s.len() - i,
{
    if 0 <= i < s.len() && is_space(s[i]) {
        space_end(s, i + 1)
    } else {
        i
    }
}

/// Index of the first whitespace character at or after `i`, or the end of `s`.
pub open spec fn word_end(s: Seq<char>, i: int) -> int
    decreases s.len() - i,
{
    if 0 <= i < s.len() && !is_space(s[i]) {
        word_end(s, i + 1)
    } else {
        i
    }
}

/// The method and the path on the first line of a request head: its first two
/// whitespace-separated words, the method empty when the line has none and the path `/`
/// when it has no second word. A head with no line gives nothing.
pub open spec fn request_words(head: Seq<char>) -> Option<(Seq<char>, Seq<char>)> {
    if head.len() == 0 {
        None
    } else {
        let line = head.subrange(0, line_end(head, 0));
        let a = space_end(line, 0);
        let e = word_end(line, a);
        let b = space_end(line, e);
        let path = if b < line.len() {
            line.subrange(b, word_end(line, b))
        } else {
            "/"@
        };
        Some((line.subrange(a, e), path))
    }
}

proof fn lemma_scan_bounds(s: Seq<char>, i: int)
    requires
        0 <= i <= s.len(),
    ensures
        i <= line_end(s, i) <= s.len(),
        i <= space_end(s, i) <= s.len(),
        i <= word_end(s, i) <= s.len(),
    decreases s.len() - i,
{
    if i < s.len() {
        lemma_scan_bounds(s, i + 1);
    }
}

fn skip_from(v: &Vec<char>, i: usize) -> (k: usize)
    requires
        i <= v.len(),
    ensures
        k == space_end(v@, i as int),
        i <= k <= v.len(),
{
    let mut k = i;
    while k < v.len() && space(v[k])
        invariant
            i <= k <= v.len(),
            space_end(v@, k as int) == space_end(v@, i as int),
        decreases v.len() - k,
    {
        k = k + 1;
    }
    k
}

fn word_from(v: &Vec<char>, i: usize) -> (k: usize)
    requires
        i <= v.len(),
    ensures
        k == word_end(v@, i as int),
        i <= k <= v.len(),
{
    let mut k = i;
    while k < v.len() && !space(v[k])
        invariant
            i <= k <= v.len(),
            word_end(v@, k as int) == word_end(v@, i as int),
        decreases v.len() - k,
    {
        k = k + 1;
    }
    k
}

/// Reads the method and the path from a request head.
pub fn request_target(head: &str) -> (r: Option<(String, String)>)
    ensures
        match request_words(head@) {
            None => r is None,
            Some(w) => r matches Some(t) && t.0@ == w.0 && t.1@ == w.1,
        },
{
    let chars = chars_of(head);
    if chars.len() == 0 {
        return None;
    }
    let mut end: usize = 0;
    while end < chars.len() && chars[end] != '\n'
        invariant
            end <= chars.len(),
            line_end(chars@, end as int) == line_end(chars@, 0),
        decreases chars.len() - end,
    {
        end = end + 1;
    }
    let line = slice_chars(&chars, 0, end);
    let a = skip_from(&line, 0);
    let e = word_from(&line, a);
    let b = skip_from(&line, e);
    proof {
        lemma_scan_bounds(line@, 0);
        lemma_scan_bounds(line@, a as int);
        lemma_scan_bounds(line@, e as int);
    }
    let method = slice_chars(&line, a, e);
    let path = if b < line.len() {
        let w = word_from(&line, b);
        proof {
            lemma_scan_bounds(line@, b as int);
        }
        string_from_chars(slice_chars(&line, b, w))
    } else {
        "/".to_owned()
    };
    Some((string_from_chars(method), path))
}

/// Where the local web server sends a request.
#[derive(Debug, Clone, Copy, PartialEq, Eq, Structural)]
pub enum Route {
    /// `GET /`: the page.
    Index,
    /// `GET /app.js`: the page's script.
    Script,
    /// `GET /style.css`: the page's style sheet.
    Style,
    /// `GET` of a path starting with `/api/new`: a new game.
    NewGame,
    /// `POST /api/move`: a move of the human.
    Move,
    /// `POST /api/analyze`: an analysis of a position.
    Analyze,
    /// `POST /api/start`: a game from a given position.
    Start,
    /// Anything else.
    NotFound,
}

/// The route of a request by its method and path.
pub open spec fn route_for(method: Seq<char>, path: Seq<char>) -> Route {
    if method == "GET"@ {
        if path == "/"@ {
            Route::Index
        } else if path == "/app.js"@ {
            Route::Script
        } else if path == "/style.css"@ {
            Route::Style
        } else if path.len() >= 8 && path.subrange(0, 8) == "/api/new"@ {
            Route::NewGame
        } else {
            Route::NotFound
        }
    } else if method == "POST"@ {
        if path == "/api/move"@ {
            Route::Move
        } else if path == "/api/analyze"@ {
            Route::Analyze
        } else if path == "/api/start"@ {
            Route::Start
        } else {
            Route::NotFound
        }
    } else {
        Route::NotFound
    }
}

fn is_text(v: &Vec<char>, s: &str) -> (r: bool)
    ensures
        r == (v@ == s@),
{
    let t = chars_of(s);
    same_chars(v, &t)
}

/// Chooses the route of a request.
pub fn route(method: &str, path: &str) -> (r: Route)
    ensures
        r == route_for(method@, path@),
{
    let m = chars_of(method);
    let p = chars_of(path);
    if is_text(&m, "GET") {
        if is_text(&p, "/") {
            Route::Index
        } else if is_text(&p, "/app.js") {
            Route::Script
        } else if is_text(&p, "/style.css") {
            Route::Style
        } else if p.len() >= 8 && is_text(&slice_chars(&p, 0, 8), "/api/new") {
            Route::NewGame
        } else {
            Route::NotFound
        }
    } else if is_text(&m, "POST") {
        if is_text(&p, "/api/move") {
            Route::Move
        } else if is_text(&p, "/api/analyze") {
            Route::Analyze
        } else if is_text(&p, "/api/start") {
            Route::Start
        } else {
            Route::NotFound
        }
    } else {
        Route::NotFound
    }
}

/// Bytes that UTF-8 takes for `c`.
pub open spec fn utf8_width(c: char) -> nat {
    let n = c as u32;
    if n < 0x80 {
        1
    } else if n < 0x800 {
        2
    } else if n < 0x10000 {
        3
    } else {
        4
    }
}

/// Bytes that UTF-8 takes for `s`.
pub open spec fn utf8_len(s: Seq<char>) -> nat
    decreases s.len(),
{
    if s.len() == 0 {
        0
    } else {
        utf8_len(s.drop_last()) + utf8_width(s.last())
    }
}

proof fn lemma_utf8_len_grows(s: Seq<char>, k: int)
    requires
        0 <= k <= s.len(),
    ensures
        utf8_len(s.take(k)) <= utf8_len(s),
    decreases s.len() - k,
{
    if k < s.len() {
        lemma_utf8_len_grows(s, k + 1);
        assert(s.take(k + 1).drop_last() =~= s.take(k));
    } else {
        assert(s.take(k) =~= s);
    }
}

/// The reason phrase sent with a status code.
pub open spec fn status_text(status: u16) -> Seq<char> {
    if status == 400 {
        "Bad Request"@
    } else if status == 404 {
        "Not Found"@
    } else {
        "OK"@
    }
}

/// An http/1.1 response that closes the connection, with the body's length in bytes.
pub open spec fn http_text(status: u16, content_type: Seq<char>, body: Seq<char>) -> Seq<char> {
    "HTTP/1.1 "@ + decimal(status as nat) + " "@ + status_text(status) + "\r\nContent-Type: "@
        + content_type + "\r\nContent-Length: "@ + decimal(utf8_len(body))
        + "\r\nConnection: close\r\n\r\n"@ + body
}

/// Frames a response for the local web server. The byte length of a string always fits
/// in a machine word.
pub fn http_response(status: u16, content_type: &str, body: &str) -> (s: String)
    requires
        utf8_len(body@) <= u64::MAX,
    ensures
        s@ == http_text(status, content_type@, body@),
{
    let chars = chars_of(body);
    let mut bytes: u64 = 0;
    let mut i: usize = 0;
    while i < chars.len()
        invariant
            i <= chars.len(),
            chars@ == body@,
            utf8_len(body@) <= u64::MAX,
            bytes == utf8_len(chars@.take(i as int)),
        decreases chars.len() - i,
    {
        let n = chars[i] as u32;
        let w: u64 = if n < 0x80 {
            1
        } else if n < 0x800 {
            2
        } else if n < 0x10000 {
            3
        } else {
            4
        };
        proof {
            lemma_utf8_len_grows(chars@, i + 1);
            assert(chars@.take(i + 1).drop_last() =~= chars@.take(i as int));
            assert(w == utf8_width(chars@[i as int]));
        }
        bytes = bytes + w;
        i = i + 1;
    }
    proof {
        assert(chars@.take(i as int) =~= chars@);
    }
    let mut out: Vec<char> = Vec::new();
    push_str(&mut out, "HTTP/1.1 ");
    push_decimal(&mut out, status as u64);
    push_str(&mut out, " ");
    if status == 400 {
        push_str(&mut out, "Bad Request");
    } else if status == 404 {
        push_str(&mut out, "Not Found");
    } else {
        push_str(&mut out, "OK");
    }
    push_str(&mut out, "\r\nContent-Type: ");
    push_str(&mut out, content_type);
    push_str(&mut out, "\r\nContent-Length: ");
    push_decimal(&mut out, bytes);
    push_str(&mut out, "\r\nConnection: close\r\n\r\n");
    push_str(&mut out, body);
    proof {
        assert(out@ =~= http_text(status, content_type@, body@));
    }
    string_from_chars(out)
}

/// Builds a move request from the fields of a serverless json payload: decimal bitboards
/// `black` and `white`, the side to move, optionally the human's side (black by default,
/// and when it names no player), the move, and optionally the search depth.
pub fn move_input_from(
    black: &str,
    white: &str,
    current_player: &str,
    human_player: Option<String>,
    move_coord: String,
    depth: Option<u32>,
) -> (r: Result<MoveInput, String>)
    ensures
        if parse_unsigned(black@, u64::MAX as nat) is None {
            r matches Err(e) && e@ == "Missing or invalid black bitboard"@
        } else if parse_unsigned(white@, u64::MAX as nat) is None {
            r matches Err(e) && e@ == "Missing or invalid white bitboard"@
        } else if player_named(current_player@) is None {
            r matches Err(e) && e@ == "Missing or invalid current player"@
        } else {
            r matches Ok(m) && m.black == parse_unsigned(black@, u64::MAX as nat)->0 && m.white
                == parse_unsigned(white@, u64::MAX as nat)->0 && m.current_player == player_named(
                current_player@,
            )->0 && m.human_player == (match human_player {
                Some(h) => match player_named(h@) {
                    Some(p) => p,
                    None => Player::Black,
                },
                None => Player::Black,
            }) && m.move_coord == move_coord && m.depth == (match depth {
                Some(d) => d,
                None => DEFAULT_DEPTH,
            })
        },
{
    let black = match parse_u64(black) {
        Some(v) => v,
        None => {
            return Err("Missing or invalid black bitboard".to_owned());
        },
    };
    let white = match parse_u64(white) {
        Some(v) => v,
        None => {
            return Err("Missing or invalid white bitboard".to_owned());
        },
    };
    let current_player = match parse_player(current_player) {
        Some(p) => p,
        None => {
            return Err("Missing or invalid current player".to_owned());
        },
    };
    let human_player = match human_player {
        Some(h) => match parse_player(h.as_str()) {
            Some(p) => p,
            None => Player::Black,
        },
        None => Player::Black,
    };
    let depth = match depth {
        Some(d) => d,
        None => DEFAULT_DEPTH,
    };
    Ok(MoveInput { black, white, current_player, human_player, move_coord, depth })
}

} // verus!
