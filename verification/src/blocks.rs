//! What blocks owe to their events: nothing before they are due, nothing to
//! those that concern no voice, and nothing to what came before a reset.

use vstd::prelude::*;

use crate::agreement::{
    law_agreeing_synths_handle_all_alike, law_agreeing_synths_play_alike,
    law_agreeing_synths_render_alike, law_agreeing_synths_resize_alike, law_cleared_synths_agree,
};
use crate::dsp::voice::{any_accepted, VoiceFilter, MAX_VOICES};
use crate::laws::law_events_are_played_when_due;
use crate::params::SineOneParams;
use crate::plugin::{
    due_end, held_voice_count, is_processed, BlockCourse, NoteEvent, SampleControls, SineOne,
};
use crate::scalar::{repeatable, Scalar};

verus! {

/// The first event from `from` on that is due at sample `t` or later.
pub open spec fn lead_end<N>(events: Seq<NoteEvent<N>>, from: int, t: int) -> int
    decreases events.len() - from,
{
    if 0 <= from < events.len() && events[from].at() < t {
        lead_end(events, from + 1, t)
    } else {
        from
    }
}

/// The events up to the first that is due at sample `t` or later.
pub open spec fn lead<N>(events: Seq<NoteEvent<N>>, t: int) -> Seq<NoteEvent<N>> {
    events.take(lead_end(events, 0, t))
}

/// The events come in the order in which they are due.
pub open spec fn is_sorted<N>(events: Seq<NoteEvent<N>>) -> bool {
    forall|i: int, j: int|
        0 <= i < j < events.len() ==> (#[trigger] events[i]).at() <= (#[trigger] events[j]).at()
}

/// In a sorted sequence the lead is made of all events that are due before the
/// sample, and of no others.
pub proof fn law_lead_of_sorted_events<N>(events: Seq<NoteEvent<N>>, t: int, k: int)
    requires
        is_sorted(events),
        0 <= k < events.len(),
    ensures
        lead(events, t).len() <= events.len(),
        k < lead(events, t).len() <==> events[k].at() < t,
{
    lemma_lead_end(events, 0, t);
    let m = lead_end(events, 0, t);
    if m <= k && m < events.len() {
        assert(events[m].at() <= events[k].at());
    }
}

proof fn lemma_lead_end<N>(events: Seq<NoteEvent<N>>, from: int, t: int)
    requires
        0 <= from <= events.len(),
    ensures
        from <= lead_end(events, from, t) <= events.len(),
        forall|k: int|
            from <= k < lead_end(events, from, t) ==> (#[trigger] events[k]).at() < t,
        lead_end(events, from, t) < events.len() ==> events[lead_end(events, from, t)].at() >= t,
    decreases events.len() - from,
{
    if from < events.len() && events[from].at() < t {
        lemma_lead_end(events, from + 1, t);
    }
}

/// Before sample `t` nothing is due but the lead, so that two sequences with the
/// same lead are played alike.
pub proof fn lemma_due_within_lead<N>(
    events: Seq<NoteEvent<N>>,
    other: Seq<NoteEvent<N>>,
    m: int,
    from: int,
    sample_idx: int,
    t: int,
)
    requires
        0 <= from <= m <= events.len(),
        m <= other.len(),
        events.take(m) == other.take(m),
        m < events.len() ==> events[m].at() >= t,
        m < other.len() ==> other[m].at() >= t,
        sample_idx < t,
    ensures
        due_end(events, from, sample_idx) == due_end(other, from, sample_idx),
        from <= due_end(events, from, sample_idx) <= m,
    decreases m - from,
{
    if from < m {
        assert(events[from] == events.take(m)[from]);
        assert(other[from] == other.take(m)[from]);
        if events[from].at() == sample_idx {
            lemma_due_within_lead(events, other, m, from + 1, sample_idx, t);
        }
    }
}

/// An event has its first effect in the sample at which it is due: blocks of
/// synthesizers that agree, with the same events and controls before sample `t`,
/// give the same samples before `t`, whatever comes later.
pub proof fn law_later_events_have_no_earlier_effect<N: Scalar>(
    synth: SineOne<N>,
    other: SineOne<N>,
    events: Seq<NoteEvent<N>>,
    controls: Seq<SampleControls<N>>,
    other_events: Seq<NoteEvent<N>>,
    other_controls: Seq<SampleControls<N>>,
    output_gain: N,
    post: SineOne<N>,
    left: Seq<N>,
    right: Seq<N>,
    post2: SineOne<N>,
    left2: Seq<N>,
    right2: Seq<N>,
    t: int,
)
    requires
        repeatable::<N>(),
        synth.agrees_with(other),
        0 <= t <= controls.len(),
        t <= other_controls.len(),
        lead(events, t) == lead(other_events, t),
        forall|i: int| 0 <= i < t ==> #[trigger] controls[i] == other_controls[i],
        is_processed(synth, post, events, controls, output_gain, left, right),
        is_processed(other, post2, other_events, other_controls, output_gain, left2, right2),
    ensures
        forall|i: int| 0 <= i < t ==> #[trigger] left[i] == left2[i],
        forall|i: int| 0 <= i < t ==> #[trigger] right[i] == right2[i],
{
    let voice_count = held_voice_count(synth.params.voices.value);
    let n = controls.len() as int;
    let n2 = other_controls.len() as int;
    let (start, course) = choose|start: SineOne<N>, course: BlockCourse<N>|
        {
            &&& #[trigger] synth.resized(start, voice_count)
            &&& #[trigger] course.is_course(
                start,
                voice_count,
                events,
                controls,
                output_gain,
                left,
                right,
                n,
            )
            &&& post == course.states.last()
        };
    let (start2, course2) = choose|start: SineOne<N>, course: BlockCourse<N>|
        {
            &&& #[trigger] other.resized(start, voice_count)
            &&& #[trigger] course.is_course(
                start,
                voice_count,
                other_events,
                other_controls,
                output_gain,
                left2,
                right2,
                n2,
            )
            &&& post2 == course.states.last()
        };
    law_agreeing_synths_resize_alike(synth, other, voice_count, start, start2);
    assert forall|i: int| 0 <= i < t implies left[i] == left2[i] && right[i] == right2[i] by {
        lemma_courses_agree_before(
            course,
            course2,
            start,
            start2,
            voice_count,
            events,
            controls,
            other_events,
            other_controls,
            output_gain,
            left,
            right,
            left2,
            right2,
            n,
            n2,
            t,
            i + 1,
        );
    }
}

proof fn lemma_courses_agree_before<N: Scalar>(
    course: BlockCourse<N>,
    other: BlockCourse<N>,
    start: SineOne<N>,
    start2: SineOne<N>,
    voice_count: usize,
    events: Seq<NoteEvent<N>>,
    controls: Seq<SampleControls<N>>,
    other_events: Seq<NoteEvent<N>>,
    other_controls: Seq<SampleControls<N>>,
    output_gain: N,
    left: Seq<N>,
    right: Seq<N>,
    left2: Seq<N>,
    right2: Seq<N>,
    n: int,
    n2: int,
    t: int,
    i: int,
)
    requires
        repeatable::<N>(),
        start.agrees_with(start2),
        1 <= voice_count <= MAX_VOICES,
        0 <= i <= t <= n,
        t <= n2,
        lead(events, t) == lead(other_events, t),
        forall|i: int| 0 <= i < t ==> #[trigger] controls[i] == other_controls[i],
        course.is_course(start, voice_count, events, controls, output_gain, left, right, n),
        other.is_course(
            start2,
            voice_count,
            other_events,
            other_controls,
            output_gain,
            left2,
            right2,
            n2,
        ),
    ensures
        course.states[i].agrees_with(other.states[i]),
        course.cursors[i] == other.cursors[i],
        0 <= course.cursors[i] <= lead(events, t).len(),
        i > 0 ==> left[i - 1] == left2[i - 1] && right[i - 1] == right2[i - 1],
    decreases i,
{
    lemma_lead_end(events, 0, t);
    lemma_lead_end(other_events, 0, t);
    let m = lead_end(events, 0, t);
    assert(lead(events, t).len() == m);
    assert(lead(other_events, t).len() == lead_end(other_events, 0, t));
    if i > 0 {
        let k = i - 1;
        lemma_courses_agree_before(
            course,
            other,
            start,
            start2,
            voice_count,
            events,
            controls,
            other_events,
            other_controls,
            output_gain,
            left,
            right,
            left2,
            right2,
            n,
            n2,
            t,
            k,
        );
        assert(course.takes_sample(voice_count, events, controls, output_gain, left, right, k));
        assert(other.takes_sample(
            voice_count,
            other_events,
            other_controls,
            output_gain,
            left2,
            right2,
            k,
        ));
        let from = course.cursors[k];
        let to = course.cursors[k + 1];
        lemma_due_within_lead(events, other_events, m, from, k, t);
        assert(events.subrange(from, to) =~= events.take(m).subrange(from, to));
        assert(other_events.subrange(from, to) =~= other_events.take(m).subrange(from, to));
        law_agreeing_synths_handle_all_alike(
            course.states[k],
            other.states[k],
            events.subrange(from, to),
            voice_count,
            course.played[k],
            other.played[k],
        );
        assert(controls[k] == other_controls[k]);
        law_agreeing_synths_render_alike(
            course.played[k],
            other.played[k],
            controls[k],
            output_gain,
            course.states[k + 1],
            (left[k], right[k]),
            other.states[k + 1],
            (left2[k], right2[k]),
        );
    }
}

/// The synthesizer ignores the event: a key that goes up, or with several voices
/// a pan, for a note that no voice holds, or something that is neither key nor
/// pan.
pub open spec fn is_ignored<N: Scalar>(
    synth: SineOne<N>,
    event: NoteEvent<N>,
    voice_count: usize,
) -> bool {
    match event {
        NoteEvent::NoteOn { .. } => false,
        NoteEvent::NoteOff { timing, note } => !any_accepted(
            synth.voices@,
            VoiceFilter::Playing(note),
        ),
        NoteEvent::PolyPan { timing, note, pan } => voice_count != 1 && !any_accepted(
            synth.voices@,
            VoiceFilter::Playing(note),
        ),
        NoteEvent::Other { timing } => true,
    }
}

/// The block can come to event `p` with the synthesizer in this state.
pub open spec fn is_reached<N: Scalar>(
    pre: SineOne<N>,
    events: Seq<NoteEvent<N>>,
    controls: Seq<SampleControls<N>>,
    output_gain: N,
    p: int,
    state: SineOne<N>,
) -> bool {
    let voice_count = held_voice_count(pre.params.voices.value);
    exists|start: SineOne<N>, course: BlockCourse<N>, left: Seq<N>, right: Seq<N>, j: int|
        {
            &&& #[trigger] pre.resized(start, voice_count)
            &&& #[trigger] course.is_course(
                start,
                voice_count,
                events,
                controls,
                output_gain,
                left,
                right,
                j,
            )
            &&& 0 <= j < controls.len()
            &&& course.cursors[j] <= p < due_end(events, course.cursors[j], j)
            &&& course.states[j].handled_all(
                state,
                events.subrange(course.cursors[j], p),
                voice_count,
            )
        }
}

/// Event `p` is ignored in every state in which the block can come to it.
pub open spec fn is_ignored_in_block<N: Scalar>(
    pre: SineOne<N>,
    events: Seq<NoteEvent<N>>,
    controls: Seq<SampleControls<N>>,
    output_gain: N,
    p: int,
) -> bool {
    forall|state: SineOne<N>| #[trigger]
        is_reached(pre, events, controls, output_gain, p, state) ==> is_ignored(
            state,
            events[p],
            held_voice_count(pre.params.voices.value),
        )
}

/// An event that is ignored leaves no trace in its block: what the block does with
/// it, it does without it.
pub proof fn law_ignored_event_leaves_no_trace<N: Scalar>(
    pre: SineOne<N>,
    events: Seq<NoteEvent<N>>,
    controls: Seq<SampleControls<N>>,
    output_gain: N,
    p: int,
    post: SineOne<N>,
    left: Seq<N>,
    right: Seq<N>,
)
    requires
        is_sorted(events),
        0 <= p < events.len(),
        events[p].at() < controls.len(),
        is_ignored_in_block(pre, events, controls, output_gain, p),
        is_processed(pre, post, events, controls, output_gain, left, right),
    ensures
        is_processed(pre, post, events.remove(p), controls, output_gain, left, right),
{
    let voice_count = held_voice_count(pre.params.voices.value);
    let n = controls.len() as int;
    let rest = events.remove(p);
    let (start, course) = choose|start: SineOne<N>, course: BlockCourse<N>|
        {
            &&& #[trigger] pre.resized(start, voice_count)
            &&& #[trigger] course.is_course(
                start,
                voice_count,
                events,
                controls,
                output_gain,
                left,
                right,
                n,
            )
            &&& post == course.states.last()
        };
    let j = events[p].at() as int;
    let cursors = Seq::new(
        (n + 1) as nat,
        |i: int|
            if i <= j {
                course.cursors[i]
            } else {
                course.cursors[i] - 1
            },
    );
    let without = BlockCourse { cursors, ..course };
    assert forall|i: int| 0 <= i < n implies #[trigger] without.takes_sample(
        voice_count,
        rest,
        controls,
        output_gain,
        left,
        right,
        i,
    ) by {
        assert(course.takes_sample(voice_count, events, controls, output_gain, left, right, i));
        lemma_cursor_of_sorted_events(
            course,
            start,
            voice_count,
            events,
            controls,
            output_gain,
            left,
            right,
            n,
            i,
        );
        lemma_cursor_of_sorted_events(
            course,
            start,
            voice_count,
            events,
            controls,
            output_gain,
            left,
            right,
            n,
            i + 1,
        );
        let from = course.cursors[i];
        let to = course.cursors[i + 1];
        lemma_due_end_of_sorted(events, from, i, to);
        lemma_due_end_of_sorted(rest, cursors[i], i, cursors[i + 1]);
        if i < j {
            assert(rest.subrange(from, to) =~= events.subrange(from, to));
        } else if i > j {
            assert(rest.subrange(from - 1, to - 1) =~= events.subrange(from, to));
        } else {
            let before = events.subrange(from, p);
            let after = events.subrange(p + 1, to);
            assert(events.subrange(from, to) =~= before.push(events[p]) + after);
            assert(rest.subrange(from, to - 1) =~= before + after);
            assert forall|mid: SineOne<N>| #[trigger]
                course.states[j].handled_all(mid, before, voice_count) implies is_ignored(
                mid,
                events[p],
                voice_count,
            ) by {
                lemma_course_up_to(
                    course,
                    start,
                    voice_count,
                    events,
                    controls,
                    output_gain,
                    left,
                    right,
                    n,
                    j,
                );
                let first = BlockCourse {
                    states: course.states.take(j + 1),
                    played: course.played.take(j),
                    cursors: course.cursors.take(j + 1),
                };
                assert(first.states[j] == course.states[j]);
                assert(first.cursors[j] == course.cursors[j]);
                assert(pre.resized(start, voice_count));
                assert(is_reached(pre, events, controls, output_gain, p, mid));
            }
            lemma_ignored_among_events(
                course.states[j],
                before,
                events[p],
                after,
                voice_count,
                course.played[j],
            );
        }
    }
    assert(without.is_course(
        start,
        voice_count,
        rest,
        controls,
        output_gain,
        left,
        right,
        n,
    ));
}

/// An event that is ignored is not heard: with and without it a block gives the
/// same samples on both channels, and voices that agree after it.
pub proof fn law_ignored_event_is_not_heard<N: Scalar>(
    pre: SineOne<N>,
    events: Seq<NoteEvent<N>>,
    controls: Seq<SampleControls<N>>,
    output_gain: N,
    p: int,
    post: SineOne<N>,
    left: Seq<N>,
    right: Seq<N>,
    post2: SineOne<N>,
    left2: Seq<N>,
    right2: Seq<N>,
)
    requires
        repeatable::<N>(),
        is_sorted(events),
        0 <= p < events.len(),
        events[p].at() < controls.len(),
        is_ignored_in_block(pre, events, controls, output_gain, p),
        is_processed(pre, post, events, controls, output_gain, left, right),
        is_processed(pre, post2, events.remove(p), controls, output_gain, left2, right2),
        left.len() == controls.len(),
        right.len() == controls.len(),
        left2.len() == controls.len(),
        right2.len() == controls.len(),
    ensures
        left == left2,
        right == right2,
        post.agrees_with(post2),
{
    law_ignored_event_leaves_no_trace(pre, events, controls, output_gain, p, post, left, right);
    law_agreeing_synths_play_alike(
        pre,
        pre,
        events.remove(p),
        controls,
        output_gain,
        post,
        left,
        right,
        post2,
        left2,
        right2,
    );
}

/// At each sample of a block with sorted events those due before are behind the
/// cursor, and the others are not.
proof fn lemma_cursor_of_sorted_events<N: Scalar>(
    course: BlockCourse<N>,
    start: SineOne<N>,
    voice_count: usize,
    events: Seq<NoteEvent<N>>,
    controls: Seq<SampleControls<N>>,
    output_gain: N,
    left: Seq<N>,
    right: Seq<N>,
    n: int,
    i: int,
)
    requires
        course.is_course(start, voice_count, events, controls, output_gain, left, right, n),
        is_sorted(events),
        0 <= i <= n,
    ensures
        0 <= course.cursors[i] <= events.len(),
        forall|k: int| 0 <= k < course.cursors[i] ==> (#[trigger] events[k]).at() < i,
        forall|k: int| course.cursors[i] <= k < events.len() ==> (#[trigger] events[k]).at() >= i,
    decreases i,
{
    if i > 0 {
        let h = i - 1;
        lemma_cursor_of_sorted_events(
            course,
            start,
            voice_count,
            events,
            controls,
            output_gain,
            left,
            right,
            n,
            h,
        );
        assert(course.takes_sample(voice_count, events, controls, output_gain, left, right, h));
        let from = course.cursors[h];
        let to = course.cursors[i];
        law_events_are_played_when_due(events, from, h);
        assert forall|k: int| to <= k < events.len() implies (#[trigger] events[k]).at() >= i by {
            assert(events[to].at() <= events[k].at());
        }
    }
}

/// The events from one position up to another are those that are due, if they are
/// all due and the next one is not.
proof fn lemma_due_end_of_sorted<N>(
    events: Seq<NoteEvent<N>>,
    from: int,
    sample_idx: int,
    to: int,
)
    requires
        0 <= from <= to <= events.len(),
        forall|k: int| from <= k < to ==> (#[trigger] events[k]).at() == sample_idx,
        to < events.len() ==> events[to].at() != sample_idx,
    ensures
        due_end(events, from, sample_idx) == to,
    decreases to - from,
{
    if from < to {
        assert(events[from].at() == sample_idx);
        lemma_due_end_of_sorted(events, from + 1, sample_idx, to);
    }
}

/// The begin of a course is a course.
proof fn lemma_course_up_to<N: Scalar>(
    course: BlockCourse<N>,
    start: SineOne<N>,
    voice_count: usize,
    events: Seq<NoteEvent<N>>,
    controls: Seq<SampleControls<N>>,
    output_gain: N,
    left: Seq<N>,
    right: Seq<N>,
    n: int,
    j: int,
)
    requires
        course.is_course(start, voice_count, events, controls, output_gain, left, right, n),
        0 <= j <= n,
    ensures
        (BlockCourse {
            states: course.states.take(j + 1),
            played: course.played.take(j),
            cursors: course.cursors.take(j + 1),
        }).is_course(start, voice_count, events, controls, output_gain, left, right, j),
{
    let first = BlockCourse {
        states: course.states.take(j + 1),
        played: course.played.take(j),
        cursors: course.cursors.take(j + 1),
    };
    assert forall|i: int| 0 <= i < j implies #[trigger] first.takes_sample(
        voice_count,
        events,
        controls,
        output_gain,
        left,
        right,
        i,
    ) by {
        assert(course.takes_sample(voice_count, events, controls, output_gain, left, right, i));
    }
}

/// Among events that follow one another, one that is ignored can be left out.
proof fn lemma_ignored_among_events<N: Scalar>(
    pre: SineOne<N>,
    before: Seq<NoteEvent<N>>,
    event: NoteEvent<N>,
    after: Seq<NoteEvent<N>>,
    voice_count: usize,
    post: SineOne<N>,
)
    requires
        pre.handled_all(post, before.push(event) + after, voice_count),
        forall|mid: SineOne<N>| #[trigger]
            pre.handled_all(mid, before, voice_count) ==> is_ignored(mid, event, voice_count),
    ensures
        pre.handled_all(post, before + after, voice_count),
    decreases after.len(),
{
    let events = before.push(event) + after;
    let mid = choose|mid: SineOne<N>|
        {
            &&& pre.handled_all(mid, events.drop_last(), voice_count)
            &&& #[trigger] mid.handled(post, events.last(), voice_count)
        };
    if after.len() == 0 {
        assert(events.drop_last() =~= before);
        assert(before + after =~= before);
        assert(is_ignored(mid, event, voice_count));
    } else {
        assert(events.drop_last() =~= before.push(event) + after.drop_last());
        lemma_ignored_among_events(pre, before, event, after.drop_last(), voice_count, mid);
        assert((before + after).drop_last() =~= before + after.drop_last());
        assert((before + after).last() == after.last());
    }
}

/// What a host gives for a block: the parameters as they then stand, events and
/// controls.
pub struct Block<N> {
    pub params: SineOneParams<N>,
    pub events: Seq<NoteEvent<N>>,
    pub controls: Seq<SampleControls<N>>,
    pub output_gain: N,
}

/// `trace` lists a synthesizer before, between and after the blocks, which it
/// turns into `outs`, a pair of channels for each.
pub open spec fn plays_all<N: Scalar>(
    trace: Seq<SineOne<N>>,
    blocks: Seq<Block<N>>,
    outs: Seq<(Seq<N>, Seq<N>)>,
) -> bool {
    &&& outs.len() == blocks.len()
    &&& trace.len() == blocks.len() + 1
    &&& forall|i: int|
        0 <= i < blocks.len() ==> plays(trace[i], blocks[i], trace[i + 1], #[trigger] outs[i])
}

/// The synthesizer turns the block into `out` and is `post` after it.
pub open spec fn plays<N: Scalar>(
    pre: SineOne<N>,
    block: Block<N>,
    post: SineOne<N>,
    out: (Seq<N>, Seq<N>),
) -> bool {
    &&& out.0.len() == block.controls.len()
    &&& out.1.len() == block.controls.len()
    &&& is_processed(
        SineOne { params: block.params, ..pre },
        post,
        block.events,
        block.controls,
        block.output_gain,
        out.0,
        out.1,
    )
}

/// A synthesizer that was reset plays as a fresh one for ever: the same blocks,
/// with whatever parameters, give the same samples.
pub proof fn law_reset_synth_plays_blocks_as_fresh<N: Scalar>(
    trace: Seq<SineOne<N>>,
    fresh: Seq<SineOne<N>>,
    blocks: Seq<Block<N>>,
    outs: Seq<(Seq<N>, Seq<N>)>,
    fresh_outs: Seq<(Seq<N>, Seq<N>)>,
)
    requires
        repeatable::<N>(),
        trace[0].params == fresh[0].params,
        trace[0].sample_rate == fresh[0].sample_rate,
        trace[0].is_reset(),
        fresh[0].is_reset(),
        plays_all(trace, blocks, outs),
        plays_all(fresh, blocks, fresh_outs),
    ensures
        outs == fresh_outs,
        trace.last().agrees_with(fresh.last()),
{
    law_cleared_synths_agree(trace[0], fresh[0]);
    assert forall|i: int| 0 <= i < outs.len() implies outs[i] == fresh_outs[i] by {
        lemma_blocks_agree(trace, fresh, blocks, outs, fresh_outs, i + 1);
    }
    assert(outs =~= fresh_outs);
    lemma_blocks_agree(trace, fresh, blocks, outs, fresh_outs, blocks.len() as int);
}

proof fn lemma_blocks_agree<N: Scalar>(
    trace: Seq<SineOne<N>>,
    other: Seq<SineOne<N>>,
    blocks: Seq<Block<N>>,
    outs: Seq<(Seq<N>, Seq<N>)>,
    other_outs: Seq<(Seq<N>, Seq<N>)>,
    i: int,
)
    requires
        repeatable::<N>(),
        trace[0].agrees_with(other[0]),
        plays_all(trace, blocks, outs),
        plays_all(other, blocks, other_outs),
        0 <= i <= blocks.len(),
    ensures
        trace[i].agrees_with(other[i]),
        i > 0 ==> outs[i - 1] == other_outs[i - 1],
    decreases i,
{
    if i > 0 {
        let k = i - 1;
        lemma_blocks_agree(trace, other, blocks, outs, other_outs, k);
        assert(plays(trace[k], blocks[k], trace[k + 1], outs[k]));
        assert(plays(other[k], blocks[k], other[k + 1], other_outs[k]));
        let pre = SineOne { params: blocks[k].params, ..trace[k] };
        let pre2 = SineOne { params: blocks[k].params, ..other[k] };
        assert(pre.voices_agree(pre2));
        law_agreeing_synths_play_alike(
            pre,
            pre2,
            blocks[k].events,
            blocks[k].controls,
            blocks[k].output_gain,
            trace[k + 1],
            outs[k].0,
            outs[k].1,
            other[k + 1],
            other_outs[k].0,
            other_outs[k].1,
        );
    }
}

} // verus!
