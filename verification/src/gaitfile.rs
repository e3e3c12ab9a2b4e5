//! The FORMAT v2 gait file: `{"format":2,"fps":30,"bodies":[..],"keys":[..],
//! ["fb":{..},]"distance":D,"fell":B,"frames":[..]}`. Every number of the
//! file other than the keys arrives already rendered as text.
use vstd::prelude::*;
use crate::evolve::KeyLoop;
use crate::keylist::{keys_csv, keys_csv_spec};

verus! {

/// The views of a list of owned texts.
pub open spec fn strings_view(v: Seq<String>) -> Seq<Seq<char>> {
    v.map_values(|s: String| s@)
}

/// Texts joined by commas.
pub open spec fn join_spec(parts: Seq<Seq<char>>) -> Seq<char>
    decreases parts.len(),
{
    if parts.len() == 0 {
        Seq::empty()
    } else if parts.len() == 1 {
        parts[0]
    } else {
        join_spec(parts.drop_last()).push(',') + parts.last()
    }
}

/// One frame: its body texts joined by commas, in brackets.
pub open spec fn frame_spec(bodies: Seq<Seq<char>>) -> Seq<char> {
    seq!['['] + join_spec(bodies) + seq![']']
}

/// The frame track: the frames joined by commas.
pub open spec fn frames_spec(frames: Seq<Seq<Seq<char>>>) -> Seq<char> {
    join_spec(frames.map_values(|f: Seq<Seq<char>>| frame_spec(f)))
}

/// The frames as body texts.
pub open spec fn frames_view(frames: Seq<Vec<String>>) -> Seq<Seq<Seq<char>>> {
    frames.map_values(|f: Vec<String>| strings_view(f@))
}

/// The feedback-timing part of a gait file: hold and strength texts and
/// the reset flag.
pub open spec fn fb_spec(fb: Option<(String, String, bool)>) -> Seq<char> {
    match fb {
        None => Seq::empty(),
        Some((hold, k_fb, reset)) => ",\"fb\":{\"hold\":"@ + hold@ + ",\"k_fb\":"@ + k_fb@
            + ",\"reset\":"@ + (if reset { "true"@ } else { "false"@ }) + "}"@,
    }
}

/// The text of a FORMAT v2 gait file.
pub open spec fn gait_json_spec(
    keys: Seq<u8>,
    fb: Option<(String, String, bool)>,
    distance: Seq<char>,
    fell: bool,
    frames: Seq<Seq<Seq<char>>>,
) -> Seq<char> {
    "{\"format\":2,\"fps\":30,\"bodies\":[\"torso\",\"head\",\"leftArm\",\"leftForearm\",\"leftThigh\",\"leftCalf\",\"leftFoot\",\"rightArm\",\"rightForearm\",\"rightThigh\",\"rightCalf\",\"rightFoot\"],\"keys\":["@
        + keys_csv_spec(keys) + "]"@ + fb_spec(fb) + ",\"distance\":"@ + distance
        + ",\"fell\":"@ + (if fell { "true"@ } else { "false"@ }) + ",\"frames\":["@
        + frames_spec(frames) + "]}"@
}

/// The opening of every gait file, up to its key list.
pub open spec fn gait_head() -> Seq<char> {
    "{\"format\":2,\"fps\":30,\"bodies\":[\"torso\",\"head\",\"leftArm\",\"leftForearm\",\"leftThigh\",\"leftCalf\",\"leftFoot\",\"rightArm\",\"rightForearm\",\"rightThigh\",\"rightCalf\",\"rightFoot\"],\"keys\":["@
}

/// The feedback block of a gait file sits right after the key list and
/// carries the policy's own hold and strength texts and its reset flag:
/// `"reset":true` exactly when the policy resets, `"reset":false`
/// otherwise.
pub proof fn lemma_gait_fb_block(
    keys: Seq<u8>,
    hold: String,
    k_fb: String,
    reset: bool,
    distance: Seq<char>,
    fell: bool,
    frames: Seq<Seq<Seq<char>>>,
)
    ensures
        ({
            let t = gait_json_spec(keys, Some((hold, k_fb, reset)), distance, fell, frames);
            let p: int = gait_head().len() + keys_csv_spec(keys).len() + 1int;
            let block = ",\"fb\":{\"hold\":"@ + hold@ + ",\"k_fb\":"@ + k_fb@ + ",\"reset\":"@;
            let flag: Seq<char> = if reset { "true"@ } else { "false"@ };
            let q: int = p + block.len();
            &&& t.subrange(0, gait_head().len() as int) == gait_head()
            &&& t.subrange(gait_head().len() as int, p - 1) == keys_csv_spec(keys)
            &&& t[p - 1] == ']'
            &&& t.subrange(p, q) == block
            &&& t.subrange(q, q + flag.len()) == flag
            &&& t[q] == (if reset { 't' } else { 'f' })
            &&& t[q + flag.len()] == '}'
        }),
{
    reveal_strlit("true");
    reveal_strlit("false");
    reveal_strlit("}");
    reveal_strlit("]");
    let fb = Some((hold, k_fb, reset));
    let t = gait_json_spec(keys, fb, distance, fell, frames);
    let head = gait_head();
    let csv = keys_csv_spec(keys);
    let x = head + csv + "]"@;
    let block = ",\"fb\":{\"hold\":"@ + hold@ + ",\"k_fb\":"@ + k_fb@ + ",\"reset\":"@;
    let flag: Seq<char> = if reset { "true"@ } else { "false"@ };
    let y = ",\"distance\":"@ + distance + ",\"fell\":"@ + (if fell { "true"@ } else { "false"@ })
        + ",\"frames\":["@ + frames_spec(frames) + "]}"@;
    assert(fb_spec(fb) =~= block + flag + "}"@);
    assert(t =~= x + (block + flag + "}"@) + y);
    let p = x.len() as int;
    let q = p + block.len();
    assert(t.subrange(0, head.len() as int) =~= head);
    assert(t.subrange(head.len() as int, p - 1) =~= csv);
    assert(t[p - 1] == x[p - 1]);
    assert(t.subrange(p, q) =~= block);
    assert(t.subrange(q, q + flag.len()) =~= flag);
    assert(t[q] == flag[0]);
    assert(t[q + flag.len()] == ("}"@)[0]);
}

/// Append `parts` joined by commas to `out`.
fn append_joined(out: &mut String, parts: &Vec<String>)
    ensures
        final(out)@ == old(out)@ + join_spec(strings_view(parts@)),
{
    let ghost start = out@;
    let ghost pv = strings_view(parts@);
    for i in 0..parts.len()
        invariant
            pv == strings_view(parts@),
            out@ == start + join_spec(pv.take(i as int)),
    {
        proof {
            reveal_strlit(",");
            assert(pv.take(i + 1).drop_last() =~= pv.take(i as int));
            assert(pv.take(i + 1).last() == parts@[i as int]@);
            if i == 0 {
                assert(pv.take(1) =~= seq![parts@[0]@]);
                assert(pv.take(0) =~= Seq::<Seq<char>>::empty());
            }
        }
        if i > 0 {
            out.append(",");
        }
        out.append(parts[i].as_str());
        proof {
            if i == 0 {
                assert(out@ =~= start + join_spec(pv.take(1)));
            } else {
                assert(out@ =~= start + join_spec(pv.take(i + 1)));
            }
        }
    }
    proof {
        assert(pv.take(parts@.len() as int) =~= pv);
    }
}

/// Render a FORMAT v2 gait file: the key loop, the optional feedback
/// timing, the distance, whether the sample fell, and the frames, each a
/// list of body texts.
pub fn gait_json_text(
    keys: &KeyLoop,
    fb: Option<(String, String, bool)>,
    distance: &str,
    fell: bool,
    frames: &Vec<Vec<String>>,
) -> (r: String)
    ensures
        r@ == gait_json_spec(keys@, fb, distance@, fell, frames_view(frames@)),
{
    let ghost fb0 = fb;
    let mut out = String::from_str(
        "{\"format\":2,\"fps\":30,\"bodies\":[\"torso\",\"head\",\"leftArm\",\"leftForearm\",\"leftThigh\",\"leftCalf\",\"leftFoot\",\"rightArm\",\"rightForearm\",\"rightThigh\",\"rightCalf\",\"rightFoot\"],\"keys\":[",
    );
    let csv = keys_csv(keys);
    out.append(csv.as_str());
    out.append("]");
    let ghost head = out@;
    match fb {
        None => {},
        Some((hold, k_fb, reset)) => {
            out.append(",\"fb\":{\"hold\":");
            out.append(hold.as_str());
            out.append(",\"k_fb\":");
            out.append(k_fb.as_str());
            out.append(",\"reset\":");
            if reset {
                out.append("true");
            } else {
                out.append("false");
            }
            out.append("}");
        },
    }
    assert(out@ =~= head + fb_spec(fb0));
    out.append(",\"distance\":");
    out.append(distance);
    out.append(",\"fell\":");
    if fell {
        out.append("true");
    } else {
        out.append("false");
    }
    out.append(",\"frames\":[");
    let ghost before_frames = out@;
    let ghost fv = frames_view(frames@).map_values(|f: Seq<Seq<char>>| frame_spec(f));
    for i in 0..frames.len()
        invariant
            fv == frames_view(frames@).map_values(|f: Seq<Seq<char>>| frame_spec(f)),
            out@ == before_frames + join_spec(fv.take(i as int)),
    {
        proof {
            reveal_strlit(",");
            reveal_strlit("[");
            reveal_strlit("]");
            assert(fv.take(i + 1).drop_last() =~= fv.take(i as int));
            assert(fv.take(i + 1).last() == frame_spec(strings_view(frames@[i as int]@)));
            if i == 0 {
                assert(fv.take(1) =~= seq![fv[0]]);
                assert(fv.take(0) =~= Seq::<Seq<char>>::empty());
            }
        }
        let ghost before = out@;
        if i > 0 {
            out.append(",");
        }
        let ghost mid = out@;
        out.append("[");
        append_joined(&mut out, &frames[i]);
        out.append("]");
        proof {
            assert(out@ =~= mid + frame_spec(strings_view(frames@[i as int]@)));
            if i == 0 {
                assert(out@ =~= before_frames + join_spec(fv.take(1)));
            } else {
                assert(out@ =~= before_frames + join_spec(fv.take(i + 1)));
            }
        }
    }
    proof {
        assert(fv.take(frames@.len() as int) =~= fv);
    }
    out.append("]}");
    out
}

} // verus!
