//! The feedback-policy checkpoint file:
//! `{"keys":[k,..],"hold":H,"k_fb":F,"reset":B}`. The two numbers are kept
//! as text here; reading them as floating point is the caller's part.
use vstd::prelude::*;
use crate::evolve::{KeyLoop, PERIOD};
use crate::evolve::valid_loop;
use crate::keylist::{
    key_loop_spec, keys_csv, keys_csv_spec, lemma_csv_chars, lemma_key_list_round_trip,
    parse_key_loop,
};
use crate::text::{
    find_text, find_text_spec, is_digit, lacks, lemma_find_text_at, lemma_find_text_facts,
    lemma_split_concat, lemma_split_single, lemma_trim_noop, split_spec, trim, trim_spec,
    white_space,
};

verus! {

/// The key list of a policy file: the text after the first `[` up to the
/// next `[` or `]` (as `text.split('[').nth(1)?.split(']').next()`).
pub open spec fn bracket_piece(text: Seq<char>) -> Option<Seq<char>> {
    let parts = split_spec(text, '[');
    if parts.len() < 2 {
        None
    } else {
        Some(split_spec(parts[1], ']')[0])
    }
}

/// First position `i >= from` holding `,` or `}`, else the length.
pub open spec fn first_delim(s: Seq<char>, from: int) -> int
    decreases s.len() - from,
{
    if from < 0 || from >= s.len() {
        s.len() as int
    } else if s[from] == ',' || s[from] == '}' {
        from
    } else {
        first_delim(s, from + 1)
    }
}

/// The value text after `key`: the text between the first and second
/// occurrences of `key`, cut at its first `,` or `}`, trimmed (as
/// `text.split(key).nth(1)?.split(|c| c == ',' || c == '}').next()?.trim()`).
pub open spec fn value_after(text: Seq<char>, key: Seq<char>) -> Option<Seq<char>> {
    match find_text_spec(text, key, 0) {
        None => None,
        Some(p) => {
            let start = p + key.len();
            let end = match find_text_spec(text, key, start) {
                Some(q) => q,
                None => text.len() as int,
            };
            let piece = text.subrange(start, end);
            Some(trim_spec(piece.subrange(0, first_delim(piece, 0))))
        },
    }
}

/// The fields of a policy file, the two numbers still as text.
pub struct PolicyText {
    pub keys: KeyLoop,
    pub hold: Option<String>,
    pub k_fb: Option<String>,
    pub reset: bool,
}

/// What a policy file says: `None` unless its key list holds exactly
/// twelve keys; then the keys, the texts after `"hold":` and `"k_fb":`, and
/// whether `"reset":true` occurs.
pub open spec fn policy_fields(text: Seq<char>) -> Option<
    (Seq<u8>, Option<Seq<char>>, Option<Seq<char>>, bool),
> {
    match bracket_piece(text) {
        None => None,
        Some(piece) => match key_loop_spec(piece) {
            None => None,
            Some(keys) => Some(
                (
                    keys,
                    value_after(text, "\"hold\":"@),
                    value_after(text, "\"k_fb\":"@),
                    find_text_spec(text, "\"reset\":true"@, 0) is Some,
                ),
            ),
        },
    }
}

/// Whether an optional owned text matches an optional text view.
pub open spec fn same_opt_text(a: Option<String>, b: Option<Seq<char>>) -> bool {
    match (a, b) {
        (Some(x), Some(y)) => x@ == y,
        (None, None) => true,
        _ => false,
    }
}

/// The piece of `s` from `from` up to its first `,` or `}`.
fn until_delim(s: &str, from: usize, to: usize) -> (r: &str)
    requires
        from <= to <= s@.len(),
    ensures
        r@ == s@.subrange(from as int, to as int).subrange(
            0,
            first_delim(s@.subrange(from as int, to as int), 0),
        ),
{
    let ghost piece = s@.subrange(from as int, to as int);
    let mut i = from;
    while i < to && s.get_char(i) != ',' && s.get_char(i) != '}'
        invariant
            from <= i <= to <= s@.len(),
            piece == s@.subrange(from as int, to as int),
            first_delim(piece, 0) == first_delim(piece, i - from),
        decreases to - i,
    {
        proof {
            assert(piece[i - from] == s@[i as int]);
        }
        i += 1;
    }
    proof {
        if i < to {
            assert(piece[i - from] == s@[i as int]);
        }
        assert(first_delim(piece, i - from) == i - from);
        assert(piece.subrange(0, (i - from) as int) =~= s@.subrange(from as int, i as int));
    }
    s.substring_char(from, i)
}

/// The value text after `key` in `text`.
fn value_text(text: &str, key: &str) -> (r: Option<String>)
    ensures
        same_opt_text(r, value_after(text@, key@)),
{
    match find_text(text, key, 0) {
        None => None,
        Some(p) => {
            let n = text.unicode_len();
            let k = key.unicode_len();
            proof {
                assert(text@.subrange(p as int, p + k) == key@);
            }
            let start = p + k;
            let end = match find_text(text, key, start) {
                Some(q) => q,
                None => n,
            };
            proof {
                if end < n {
                    assert(text@.subrange(end as int, end + k) == key@);
                }
            }
            let piece = until_delim(text, start, end);
            let v = trim(piece);
            Some(String::from_str(v))
        },
    }
}

/// Read a policy file's text: `None` unless its key list holds exactly
/// twelve keys (keys past 8 act as 8).
pub fn parse_policy_text(text: &str) -> (r: Option<PolicyText>)
    ensures
        match (r, policy_fields(text@)) {
            (Some(p), Some((keys, hold, k_fb, reset))) => p.keys@ == keys && same_opt_text(
                p.hold,
                hold,
            ) && same_opt_text(p.k_fb, k_fb) && p.reset == reset,
            (None, None) => true,
            _ => false,
        },
{
    let parts = crate::text::split_char(text, '[');
    if parts.len() < 2 {
        return None;
    }
    let inner = crate::text::split_char(parts[1], ']');
    proof {
        assert(parts@[1]@ == split_spec(text@, '[')[1]);
        crate::text::lemma_split_nonempty(parts@[1]@, ']');
        assert(inner@[0]@ == split_spec(parts@[1]@, ']')[0]);
    }
    let keys = match parse_key_loop(inner[0]) {
        Some(k) => k,
        None => return None,
    };
    let hold = value_text(text, "\"hold\":");
    let k_fb = value_text(text, "\"k_fb\":");
    let reset = find_text(text, "\"reset\":true", 0).is_some();
    Some(PolicyText { keys, hold, k_fb, reset })
}

/// The text of a policy file with keys `keys`, the numbers rendered as
/// `hold` and `k_fb`, and the touchdown-reset flag.
#[verifier::opaque]
pub open spec fn policy_json_spec(keys: Seq<u8>, hold: Seq<char>, k_fb: Seq<char>, reset: bool) -> Seq<char> {
    "{\"keys\":["@ + keys_csv_spec(keys) + "],\"hold\":"@ + hold + ",\"k_fb\":"@ + k_fb
        + ",\"reset\":"@ + (if reset { "true"@ } else { "false"@ }) + "}"@
}

/// Render a policy file, the numbers given as text.
pub fn policy_json_text(keys: &KeyLoop, hold: &str, k_fb: &str, reset: bool) -> (r: String)
    ensures
        r@ == policy_json_spec(keys@, hold@, k_fb@, reset),
{
    let csv = keys_csv(keys);
    let mut out = String::from_str("{\"keys\":[");
    out.append(csv.as_str());
    out.append("],\"hold\":");
    out.append(hold);
    out.append(",\"k_fb\":");
    out.append(k_fb);
    out.append(",\"reset\":");
    if reset {
        out.append("true");
    } else {
        out.append("false");
    }
    out.append("}");
    proof {
        reveal(policy_json_spec);
    }
    out
}

/// A number rendered for a policy file: no quote, comma, brace or
/// bracket, and no white space at either end (every `f64` `Display`
/// rendering is one).
pub open spec fn plain_number(t: Seq<char>) -> bool {
    &&& forall|i: int|
        0 <= i < t.len() ==> #[trigger] t[i] != '"' && t[i] != ',' && t[i] != '}' && t[i] != '['
            && t[i] != ']'
    &&& (t.len() > 0 ==> !white_space(t[0]) && !white_space(t.last()))
}

/// Where `first_delim` lands: a `,` or `}` at `i`, with none in `from..i`.
proof fn lemma_first_delim_at(s: Seq<char>, from: int, i: int)
    requires
        0 <= from <= i < s.len(),
        s[i] == ',' || s[i] == '}',
        forall|j: int| from <= j < i ==> #[trigger] s[j] != ',' && s[j] != '}',
    ensures
        first_delim(s, from) == i,
    decreases i - from,
{
    if from < i {
        lemma_first_delim_at(s, from + 1, i);
    }
}

/// The character layout of a rendered policy file, by region.
proof fn lemma_policy_layout(keys: Seq<u8>, hold: Seq<char>, k_fb: Seq<char>, reset: bool)
    requires
        keys.len() >= 1,
        plain_number(hold),
        plain_number(k_fb),
    ensures
        ({
            let t = policy_json_spec(keys, hold, k_fb, reset);
            let c = keys_csv_spec(keys);
            let o2: int = 9 + c.len() as int;
            let o4: int = o2 + 9 + hold.len();
            let o6: int = o4 + 8 + k_fb.len();
            let b: Seq<char> = if reset { "true"@ } else { "false"@ };
            &&& t.len() == o6 + 9 + b.len() + 1
            &&& forall|j: int|
                0 <= j < t.len() && #[trigger] t[j] == '"' ==> j == 1 || j == 6 || j == o2 + 2
                    || j == o2 + 7 || j == o4 + 1 || j == o4 + 6 || j == o6 + 1 || j == o6 + 7
            &&& t[2] == 'k' && t[3] == 'e' && t[7] == ':'
            &&& t[o2 + 3] == 'h' && t[o2 + 8] == ':'
            &&& t[o4 + 2] == 'k' && t[o4 + 7] == ':'
            &&& t[o6 + 2] == 'r' && t[o6 + 8] == ':'
            &&& t[o6 + 9] == (if reset { 't' } else { 'f' })
            &&& t.subrange(o2 + 2, o2 + 9) == "\"hold\":"@
            &&& t.subrange(o4 + 1, o4 + 8) == "\"k_fb\":"@
            &&& reset ==> t.subrange(o6 + 1, o6 + 13) == "\"reset\":true"@
            &&& forall|j: int| 0 <= j < hold.len() ==> #[trigger] t[o2 + 9 + j] == hold[j]
            &&& t[o4] == ','
            &&& forall|j: int| 0 <= j < k_fb.len() ==> #[trigger] t[o4 + 8 + j] == k_fb[j]
            &&& t[o6] == ','
            &&& forall|j: int| 0 <= j < t.len() && #[trigger] t[j] == '[' ==> j == 8
            &&& forall|j: int| 0 <= j < t.len() && #[trigger] t[j] == ']' ==> j == o2
            &&& forall|j: int| 0 <= j < c.len() ==> #[trigger] t[9 + j] == c[j]
            &&& t[8] == '[' && t[o2] == ']'
        }),
{
    reveal(policy_json_spec);
    reveal_strlit("{\"keys\":[");
    reveal_strlit("],\"hold\":");
    reveal_strlit(",\"k_fb\":");
    reveal_strlit(",\"reset\":");
    reveal_strlit("true");
    reveal_strlit("false");
    reveal_strlit("}");
    reveal_strlit("\"hold\":");
    reveal_strlit("\"k_fb\":");
    reveal_strlit("\"reset\":true");
    let c = keys_csv_spec(keys);
    lemma_csv_chars(keys);
    let b: Seq<char> = if reset { "true"@ } else { "false"@ };
    let p1 = "{\"keys\":["@;
    let p2 = "],\"hold\":"@;
    let p3 = ",\"k_fb\":"@;
    let p4 = ",\"reset\":"@;
    let p5 = "}"@;
    let t = policy_json_spec(keys, hold, k_fb, reset);
    let a1 = p1 + c;
    let a2 = a1 + p2;
    let a3 = a2 + hold;
    let a4 = a3 + p3;
    let a5 = a4 + k_fb;
    let a6 = a5 + p4;
    let a7 = a6 + b;
    assert(t == a7 + p5);
    let o2: int = 9 + c.len() as int;
    let o4: int = o2 + 9 + hold.len();
    let o6: int = o4 + 8 + k_fb.len();
    // One pass over the nine regions of the text: where quotes and
    // brackets can stand.
    assert forall|j: int| 0 <= j < t.len() implies {
        &&& (#[trigger] t[j] == '"' ==> j == 1 || j == 6 || j == o2 + 2 || j == o2 + 7 || j == o4
            + 1 || j == o4 + 6 || j == o6 + 1 || j == o6 + 7)
        &&& (t[j] == '[' ==> j == 8)
        &&& (t[j] == ']' ==> j == o2)
    } by {
        if j < 9 {
            assert(t[j] == p1[j]);
        } else if j < o2 {
            assert(t[j] == c[j - 9]);
        } else if j < o2 + 9 {
            assert(t[j] == p2[j - o2]);
        } else if j < o2 + 9 + hold.len() {
            assert(t[j] == hold[j - o2 - 9]);
        } else if j < o4 + 8 {
            assert(t[j] == p3[j - o4]);
        } else if j < o4 + 8 + k_fb.len() {
            assert(t[j] == k_fb[j - o4 - 8]);
        } else if j < o6 + 9 {
            assert(t[j] == p4[j - o6]);
        } else if j < o6 + 9 + b.len() {
            assert(t[j] == b[j - o6 - 9]);
        } else {
            assert(t[j] == p5[j - o6 - 9 - b.len()]);
        }
    }
    assert forall|j: int| 0 <= j < c.len() implies #[trigger] t[9 + j] == c[j] by {
        assert(t[9 + j] == a1[9 + j]);
    }
    assert(t[8] == p1[8] && t[o2] == p2[0]);
    assert(t[2] == p1[2] && t[3] == p1[3] && t[7] == p1[7]);
    assert(t[o2 + 3] == p2[3] && t[o2 + 8] == p2[8]);
    assert(t[o4 + 2] == p3[2] && t[o4 + 7] == p3[7] && t[o4] == p3[0]);
    assert(t[o6 + 2] == p4[2] && t[o6 + 8] == p4[8] && t[o6] == p4[0]);
    assert(t[o6 + 9] == b[0]);
    assert(t.subrange(o2 + 2, o2 + 9) =~= "\"hold\":"@) by {
        assert forall|m: int| 0 <= m < 7 implies #[trigger] t.subrange(o2 + 2, o2 + 9)[m] == p2[m + 2] by {
            assert(t[o2 + 2 + m] == p2[m + 2]);
        }
    }
    assert(t.subrange(o4 + 1, o4 + 8) =~= "\"k_fb\":"@) by {
        assert forall|m: int| 0 <= m < 7 implies #[trigger] t.subrange(o4 + 1, o4 + 8)[m] == p3[m + 1] by {
            assert(t[o4 + 1 + m] == p3[m + 1]);
        }
    }
    if reset {
        assert(t.subrange(o6 + 1, o6 + 13) =~= "\"reset\":true"@) by {
            assert forall|m: int| 0 <= m < 12 implies #[trigger] t.subrange(o6 + 1, o6 + 13)[m] == (if m
                < 8 {
                p4[m + 1]
            } else {
                b[m - 8]
            }) by {
                if m < 8 {
                    assert(t[o6 + 1 + m] == p4[m + 1]);
                } else {
                    assert(t[o6 + 1 + m] == b[m - 8]);
                }
            }
        }
    }
    assert forall|j: int| 0 <= j < hold.len() implies #[trigger] t[o2 + 9 + j] == hold[j] by {
        assert(t[o2 + 9 + j] == a3[o2 + 9 + j]);
    }
    assert forall|j: int| 0 <= j < k_fb.len() implies #[trigger] t[o4 + 8 + j] == k_fb[j] by {
        assert(t[o4 + 8 + j] == a5[o4 + 8 + j]);
    }
}

proof fn lemma_mismatch(t: Seq<char>, key: Seq<char>, j: int, m: int)
    requires
        0 <= j,
        j + key.len() <= t.len(),
        0 <= m < key.len(),
        t[j + m] != key[m],
    ensures
        t.subrange(j, j + key.len()) != key,
{
    assert(t.subrange(j, j + key.len())[m] == t[j + m]);
}

/// The value text of a plain number field: found after its key, cut at the
/// `,` that follows it.
proof fn lemma_value_field(t: Seq<char>, key: Seq<char>, p: int, v: Seq<char>)
    requires
        key.len() > 0,
        key[0] == '"',
        0 <= p,
        p + key.len() + v.len() < t.len(),
        find_text_spec(t, key, 0) == Some(p),
        forall|j: int| 0 <= j < v.len() ==> #[trigger] t[p + key.len() + j] == v[j],
        t[p + key.len() + v.len()] == ',',
        plain_number(v),
    ensures
        value_after(t, key) == Some(v),
{
    let start = p + key.len();
    lemma_find_text_facts(t, key, start);
    let end = match find_text_spec(t, key, start) {
        Some(q) => q,
        None => t.len() as int,
    };
    if let Some(q) = find_text_spec(t, key, start) {
        assert(t.subrange(q, q + key.len())[0] == t[q]);
        if q <= start + v.len() {
            if q < start + v.len() {
                assert(t[start + (q - start)] == v[q - start]);
            }
            assert(false);
        }
    }
    let piece = t.subrange(start, end);
    assert(piece[v.len() as int] == t[start + v.len()]);
    assert forall|j: int| 0 <= j < v.len() implies #[trigger] piece[j] != ',' && piece[j] != '}' by {
        assert(piece[j] == t[start + j]);
    }
    lemma_first_delim_at(piece, 0, v.len() as int);
    assert(piece.subrange(0, v.len() as int) =~= v) by {
        assert forall|j: int| 0 <= j < v.len() implies #[trigger] piece.subrange(0, v.len() as int)[j]
            == v[j] by {
            assert(piece[j] == t[start + j]);
        }
    }
    lemma_trim_noop(v);
}

proof fn lemma_policy_keys_back(keys: Seq<u8>, hold: Seq<char>, k_fb: Seq<char>, reset: bool)
    requires
        keys.len() == PERIOD,
        valid_loop(keys),
        plain_number(hold),
        plain_number(k_fb),
    ensures
        bracket_piece(policy_json_spec(keys, hold, k_fb, reset)) == Some(keys_csv_spec(keys)),
        key_loop_spec(keys_csv_spec(keys)) == Some(keys),
{
    lemma_policy_layout(keys, hold, k_fb, reset);
    let t = policy_json_spec(keys, hold, k_fb, reset);
    let c = keys_csv_spec(keys);
    lemma_csv_chars(keys);
    let o2: int = 9 + c.len() as int;
    let q = t.subrange(0, 8);
    let r = t.subrange(9, t.len() as int);
    assert(t =~= q.push('[') + r);
    assert(lacks(q, '[')) by {
        assert forall|i: int| 0 <= i < q.len() implies #[trigger] q[i] != '[' by {
            assert(q[i] == t[i]);
        }
    }
    assert(lacks(r, '[')) by {
        assert forall|i: int| 0 <= i < r.len() implies #[trigger] r[i] != '[' by {
            assert(r[i] == t[9 + i]);
        }
    }
    lemma_split_concat(q, r, '[');
    lemma_split_single(q, '[');
    lemma_split_single(r, '[');
    assert(split_spec(t, '[') =~= seq![q, r]);
    let r0 = r.subrange(0, c.len() as int);
    let r1 = r.subrange(c.len() + 1int, r.len() as int);
    assert(r =~= r0.push(']') + r1) by {
        assert(r[c.len() as int] == t[o2]);
    }
    assert(r0 =~= c) by {
        assert forall|i: int| 0 <= i < c.len() implies #[trigger] r0[i] == c[i] by {
            assert(r0[i] == t[9 + i]);
        }
    }
    assert(lacks(c, ']')) by {
        assert forall|i: int| 0 <= i < c.len() implies #[trigger] c[i] != ']' by {
            assert(is_digit(c[i]) || c[i] == ',');
        }
    }
    lemma_split_concat(r0, r1, ']');
    lemma_split_single(c, ']');
    lemma_key_list_round_trip(keys);
}

proof fn lemma_policy_numbers_back(keys: Seq<u8>, hold: Seq<char>, k_fb: Seq<char>, reset: bool)
    requires
        keys.len() == PERIOD,
        plain_number(hold),
        plain_number(k_fb),
    ensures
        value_after(policy_json_spec(keys, hold, k_fb, reset), "\"hold\":"@) == Some(hold),
        value_after(policy_json_spec(keys, hold, k_fb, reset), "\"k_fb\":"@) == Some(k_fb),
{
    reveal_strlit("\"hold\":");
    reveal_strlit("\"k_fb\":");
    lemma_policy_layout(keys, hold, k_fb, reset);
    let t = policy_json_spec(keys, hold, k_fb, reset);
    let c = keys_csv_spec(keys);
    let o2: int = 9 + c.len() as int;
    let o4: int = o2 + 9 + hold.len();
    let kh = "\"hold\":"@;
    assert forall|j: int| 0 <= j < o2 + 2 && j + kh.len() <= t.len() implies #[trigger] t.subrange(
        j,
        j + kh.len(),
    ) != kh by {
        if j == 1 || j == 6 {
            lemma_mismatch(t, kh, j, 1);
        } else {
            assert(t[j] != '"');
            lemma_mismatch(t, kh, j, 0);
        }
    }
    lemma_find_text_at(t, kh, 0, o2 + 2);
    lemma_value_field(t, kh, o2 + 2, hold);
    let kf = "\"k_fb\":"@;
    assert forall|j: int| 0 <= j < o4 + 1 && j + kf.len() <= t.len() implies #[trigger] t.subrange(
        j,
        j + kf.len(),
    ) != kf by {
        if j == 1 {
            lemma_mismatch(t, kf, j, 2);
        } else if j == 6 || j == o2 + 2 || j == o2 + 7 {
            lemma_mismatch(t, kf, j, 1);
        } else {
            assert(t[j] != '"');
            lemma_mismatch(t, kf, j, 0);
        }
    }
    lemma_find_text_at(t, kf, 0, o4 + 1);
    lemma_value_field(t, kf, o4 + 1, k_fb);
}

proof fn lemma_policy_reset_back(keys: Seq<u8>, hold: Seq<char>, k_fb: Seq<char>, reset: bool)
    requires
        keys.len() == PERIOD,
        plain_number(hold),
        plain_number(k_fb),
    ensures
        (find_text_spec(policy_json_spec(keys, hold, k_fb, reset), "\"reset\":true"@, 0) is Some)
            == reset,
{
    reveal_strlit("\"reset\":true");
    reveal_strlit("true");
    reveal_strlit("false");
    lemma_policy_layout(keys, hold, k_fb, reset);
    let t = policy_json_spec(keys, hold, k_fb, reset);
    let c = keys_csv_spec(keys);
    let o2: int = 9 + c.len() as int;
    let o4: int = o2 + 9 + hold.len();
    let o6: int = o4 + 8 + k_fb.len();
    let kr = "\"reset\":true"@;
    if reset {
        assert forall|j: int| 0 <= j < o6 + 1 && j + kr.len() <= t.len() implies #[trigger] t.subrange(
            j,
            j + kr.len(),
        ) != kr by {
            if j == 1 || j == 6 || j == o2 + 2 || j == o2 + 7 || j == o4 + 1 || j == o4 + 6 {
                lemma_mismatch(t, kr, j, 1);
            } else {
                assert(t[j] != '"');
                lemma_mismatch(t, kr, j, 0);
            }
        }
        lemma_find_text_at(t, kr, 0, o6 + 1);
    } else {
        lemma_find_text_facts(t, kr, 0);
        if let Some(j) = find_text_spec(t, kr, 0) {
            if j == o6 + 1 {
                lemma_mismatch(t, kr, j, 8);
            } else if j == 1 || j == 6 || j == o2 + 2 || j == o2 + 7 || j == o4 + 1 || j == o4 + 6
                || j == o6 + 7 {
                lemma_mismatch(t, kr, j, 1);
            } else {
                assert(t[j] != '"');
                lemma_mismatch(t, kr, j, 0);
            }
        }
    }
}

/// A rendered policy file reads back as what was rendered: the keys
/// (Discrete-9 actions), both number texts, and the reset flag.
pub proof fn lemma_policy_round_trip(keys: Seq<u8>, hold: Seq<char>, k_fb: Seq<char>, reset: bool)
    requires
        keys.len() == PERIOD,
        valid_loop(keys),
        plain_number(hold),
        plain_number(k_fb),
    ensures
        policy_fields(policy_json_spec(keys, hold, k_fb, reset)) == Some(
            (keys, Some(hold), Some(k_fb), reset),
        ),
{
    lemma_policy_keys_back(keys, hold, k_fb, reset);
    lemma_policy_numbers_back(keys, hold, k_fb, reset);
    lemma_policy_reset_back(keys, hold, k_fb, reset);
}

} // verus!
