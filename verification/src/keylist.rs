//! Comma-separated Discrete-9 key lists, as written on the command line
//! (`--seed-loop 7,5,2,...`) and inside policy files (`"keys":[7,5,2,...]`).
use vstd::prelude::*;
use crate::evolve::{KeyLoop, PERIOD};
use crate::evolve::valid_loop;
use crate::text::{
    decimal_text, is_digit, lacks, lemma_decimal_round_trip, lemma_digit_not_space,
    lemma_split_concat, lemma_split_single, lemma_trim_noop, parse_u8, parse_unsigned,
    split_char, split_spec, texts_view, trim, trim_spec, u8_text,
};

verus! {

/// The key a list token stands for: the trimmed token read as a `u8`, with
/// values past 8 clamped to 8; `None` when the token is not a `u8`.
pub open spec fn key_token(t: Seq<char>) -> Option<u8> {
    match parse_unsigned(trim_spec(t), u8::MAX as nat) {
        Some(v) => Some(if v < 8 { v as u8 } else { 8u8 }),
        None => None,
    }
}

/// The keys of the tokens that read as keys, in order (others are skipped).
pub open spec fn keys_of_tokens(toks: Seq<Seq<char>>) -> Seq<u8>
    decreases toks.len(),
{
    if toks.len() == 0 {
        Seq::empty()
    } else {
        let prev = keys_of_tokens(toks.drop_last());
        match key_token(toks.last()) {
            Some(k) => prev.push(k),
            None => prev,
        }
    }
}

/// The keys of a comma-separated list.
pub open spec fn key_list_spec(s: Seq<char>) -> Seq<u8> {
    keys_of_tokens(split_spec(s, ','))
}

/// A full key loop read from a list: exactly `PERIOD` keys, or nothing.
pub open spec fn key_loop_spec(s: Seq<char>) -> Option<Seq<u8>> {
    if key_list_spec(s).len() == PERIOD {
        Some(key_list_spec(s))
    } else {
        None
    }
}

/// The keys of a comma-separated list: every token that (trimmed) reads as
/// a `u8`, clamped to 8; other tokens are skipped.
pub fn parse_key_list(s: &str) -> (r: Vec<u8>)
    ensures
        r@ == key_list_spec(s@),
        forall|i: int| 0 <= i < r@.len() ==> #[trigger] r@[i] < 9,
{
    let toks = split_char(s, ',');
    let ghost tv = texts_view(toks@);
    let mut out: Vec<u8> = Vec::new();
    for i in 0..toks.len()
        invariant
            tv == texts_view(toks@),
            out@ == keys_of_tokens(tv.take(i as int)),
            forall|j: int| 0 <= j < out@.len() ==> #[trigger] out@[j] < 9,
    {
        proof {
            assert(tv.take(i + 1).drop_last() =~= tv.take(i as int));
            assert(tv.take(i + 1).last() == toks@[i as int]@);
        }
        let t = trim(toks[i]);
        match parse_u8(t) {
            Some(v) => {
                let k = if v < 8 {
                    v
                } else {
                    8
                };
                out.push(k);
            },
            None => {},
        }
    }
    proof {
        assert(tv.take(toks@.len() as int) =~= tv);
    }
    out
}

/// A key loop read from a comma-separated list: `Some` exactly when the
/// list holds `PERIOD` keys.
pub fn parse_key_loop(s: &str) -> (r: Option<KeyLoop>)
    ensures
        match (r, key_loop_spec(s@)) {
            (Some(g), Some(v)) => g@ == v,
            (None, None) => true,
            _ => false,
        },
{
    let vals = parse_key_list(s);
    if vals.len() != PERIOD {
        return None;
    }
    let mut out = [0u8; PERIOD];
    for i in 0..PERIOD
        invariant
            vals@.len() == PERIOD,
            out@.len() == PERIOD,
            forall|j: int| 0 <= j < i ==> out@[j] == vals@[j],
    {
        out[i] = vals[i];
    }
    assert(out@ =~= vals@);
    Some(out)
}

/// The loop made of the first `PERIOD` keys of `keys` (keys past 8 act as
/// 8; missing slots hold 0).
pub open spec fn loop_from_slice_spec(keys: Seq<u8>) -> Seq<u8> {
    Seq::new(
        PERIOD as nat,
        |i: int|
            if i < keys.len() {
                if keys[i] < 8 {
                    keys[i]
                } else {
                    8u8
                }
            } else {
                0u8
            },
    )
}

/// A key loop from an arbitrary key slice: its first twelve keys clamped
/// into `0..9`, zero-filled when the slice is shorter.
pub fn loop_from_slice(keys: &[u8]) -> (r: KeyLoop)
    ensures
        r@ == loop_from_slice_spec(keys@),
        valid_loop(r@),
{
    let mut out = [0u8; PERIOD];
    let n = if keys.len() < PERIOD {
        keys.len()
    } else {
        PERIOD
    };
    for i in 0..n
        invariant
            n <= PERIOD,
            n <= keys@.len(),
            n == keys@.len() || n == PERIOD,
            out@.len() == PERIOD,
            forall|j: int| 0 <= j < i ==> out@[j] == loop_from_slice_spec(keys@)[j],
            forall|j: int| i <= j < PERIOD ==> out@[j] == 0,
    {
        let k = keys[i];
        out[i] = if k < 8 {
            k
        } else {
            8
        };
    }
    assert(out@ =~= loop_from_slice_spec(keys@));
    out
}

/// The list rendering of keys: decimal keys joined by commas.
pub open spec fn keys_csv_spec(keys: Seq<u8>) -> Seq<char>
    decreases keys.len(),
{
    if keys.len() == 0 {
        Seq::empty()
    } else if keys.len() == 1 {
        decimal_text(keys[0] as nat)
    } else {
        keys_csv_spec(keys.drop_last()).push(',') + decimal_text(keys.last() as nat)
    }
}

/// A rendered key list holds only digits and commas.
pub proof fn lemma_csv_chars(keys: Seq<u8>)
    ensures
        forall|i: int|
            0 <= i < keys_csv_spec(keys).len() ==> is_digit(#[trigger] keys_csv_spec(keys)[i])
                || keys_csv_spec(keys)[i] == ',',
    decreases keys.len(),
{
    if keys.len() == 1 {
        lemma_decimal_round_trip(keys[0] as nat, 255);
    } else if keys.len() > 1 {
        lemma_csv_chars(keys.drop_last());
        lemma_decimal_round_trip(keys.last() as nat, 255);
        let a = keys_csv_spec(keys.drop_last()).push(',');
        let d = decimal_text(keys.last() as nat);
        assert forall|i: int| 0 <= i < (a + d).len() implies is_digit(#[trigger] (a + d)[i])
            || (a + d)[i] == ',' by {
            if i < a.len() - 1 {
                assert(a[i] == keys_csv_spec(keys.drop_last())[i]);
            } else if i >= a.len() {
                assert((a + d)[i] == d[i - a.len()]);
            }
        }
    }
}

proof fn lemma_key_token_decimal(x: u8)
    requires
        x < 9,
    ensures
        key_token(decimal_text(x as nat)) == Some(x),
        lacks(decimal_text(x as nat), ','),
{
    let d = decimal_text(x as nat);
    lemma_decimal_round_trip(x as nat, 255);
    lemma_digit_not_space(d[0]);
    lemma_digit_not_space(d[d.len() - 1]);
    lemma_trim_noop(d);
}

/// A rendered key loop reads back as the same keys: the list written by
/// `keys_csv` parses to the keys it was made from.
pub proof fn lemma_key_list_round_trip(keys: Seq<u8>)
    requires
        keys.len() >= 1,
        valid_loop(keys),
    ensures
        key_list_spec(keys_csv_spec(keys)) == keys,
    decreases keys.len(),
{
    if keys.len() == 1 {
        lemma_key_token_decimal(keys[0]);
        lemma_split_single(decimal_text(keys[0] as nat), ',');
        let toks = seq![decimal_text(keys[0] as nat)];
        assert(toks.drop_last() =~= Seq::<Seq<char>>::empty());
        assert(keys_of_tokens(toks.drop_last()) =~= Seq::<u8>::empty());
        assert(toks.last() == decimal_text(keys[0] as nat));
        assert(keys_of_tokens(toks) =~= seq![keys[0]]);
        assert(seq![keys[0]] =~= keys);
    } else {
        let init = keys.drop_last();
        assert(valid_loop(init)) by {
            assert forall|i: int| 0 <= i < init.len() implies #[trigger] init[i] < 9 by {
                assert(init[i] == keys[i]);
            }
        }
        lemma_key_list_round_trip(init);
        assert(keys[keys.len() - 1] < 9);
        lemma_key_token_decimal(keys.last());
        let d = decimal_text(keys.last() as nat);
        lemma_split_concat(keys_csv_spec(init), d, ',');
        lemma_split_single(d, ',');
        let toks = split_spec(keys_csv_spec(init), ',') + seq![d];
        assert(toks.drop_last() =~= split_spec(keys_csv_spec(init), ','));
        assert(toks.last() == d);
        assert(init.push(keys.last()) =~= keys);
    }
}

/// Render a key loop as decimal keys joined by commas.
pub fn keys_csv(keys: &KeyLoop) -> (r: String)
    ensures
        r@ == keys_csv_spec(keys@),
{
    let mut out = u8_text(keys[0]);
    proof {
        assert(keys@.take(1) =~= seq![keys@[0]]);
    }
    for i in 1..PERIOD
        invariant
            keys@.len() == PERIOD,
            out@ == keys_csv_spec(keys@.take(i as int)),
    {
        let d = u8_text(keys[i]);
        out.append(",");
        out.append(d.as_str());
        proof {
            reveal_strlit(",");
            assert(keys@.take(i + 1).drop_last() =~= keys@.take(i as int));
            assert(keys@.take(i + 1).last() == keys@[i as int]);
        }
    }
    proof {
        assert(keys@.take(PERIOD as int) =~= keys@);
    }
    out
}

} // verus!
