//! Blocks in pieces: where a block is cut does not matter, an event comes before
//! the sample at which it is due, and each sample has controls of its own.

use vstd::prelude::*;

use crate::agreement::law_agreeing_synths_play_alike;
use crate::blocks::{is_sorted, lemma_due_within_lead};
use crate::dsp::chain::law_voice_is_in_tune;
use crate::dsp::envelope::EnvState;
use crate::dsp::oscillator::CENTS_PER_OCTAVE;
use crate::dsp::voice::MAX_VOICES;
use crate::formula::{evaluates, lit, val};
use crate::laws::law_events_are_played_when_due;
use crate::plugin::{
    due_end, held_voice_count, is_processed, BlockCourse, NoteEvent, SampleControls, SineOne,
};
use crate::scalar::{repeatable, Scalar, TWO};

verus! {

/// The event as a block has it that begins `t` samples later.
pub open spec fn brought_forward<N>(event: NoteEvent<N>, t: int) -> NoteEvent<N> {
    let timing = (event.at() - t) as u32;
    match event {
        NoteEvent::NoteOn { note, velocity, base_freq, .. } => NoteEvent::NoteOn {
            timing,
            note,
            velocity,
            base_freq,
        },
        NoteEvent::NoteOff { note, .. } => NoteEvent::NoteOff { timing, note },
        NoteEvent::PolyPan { note, pan, .. } => NoteEvent::PolyPan { timing, note, pan },
        NoteEvent::Other { .. } => NoteEvent::Other { timing },
    }
}

/// The events from `first` on as a block has them that begins `t` samples later.
pub open spec fn rest_of<N>(events: Seq<NoteEvent<N>>, first: int, t: int) -> Seq<NoteEvent<N>> {
    Seq::new((events.len() - first) as nat, |k: int| brought_forward(events[first + k], t))
}

/// `first` events are due before sample `t`, the others at `t` or later.
pub open spec fn is_cut<N>(events: Seq<NoteEvent<N>>, first: int, t: int) -> bool {
    &&& is_sorted(events)
    &&& 0 <= first <= events.len()
    &&& forall|k: int| 0 <= k < first ==> (#[trigger] events[k]).at() < t
    &&& forall|k: int| first <= k < events.len() ==> (#[trigger] events[k]).at() >= t
}

/// Sorted events are all behind the cursor once they are due.
proof fn lemma_cursor_keeps_up<N: Scalar>(
    course: BlockCourse<N>,
    start: SineOne<N>,
    voice_count: usize,
    events: Seq<NoteEvent<N>>,
    controls: Seq<SampleControls<N>>,
    output_gain: N,
    left: Seq<N>,
    right: Seq<N>,
    n: int,
    i: int,
)
    requires
        course.is_course(start, voice_count, events, controls, output_gain, left, right, n),
        is_sorted(events),
        0 <= i <= n,
    ensures
        0 <= course.cursors[i] <= events.len(),
        forall|k: int| 0 <= k < course.cursors[i] ==> (#[trigger] events[k]).at() < i,
        forall|k: int| course.cursors[i] <= k < events.len() ==> (#[trigger] events[k]).at() >= i,
    decreases i,
{
    if i > 0 {
        let k = i - 1;
        lemma_cursor_keeps_up(
            course,
            start,
            voice_count,
            events,
            controls,
            output_gain,
            left,
            right,
            n,
            k,
        );
        assert(course.takes_sample(
            voice_count,
            events,
            controls,
            output_gain,
            left,
            right,
            k,
        ));
        law_events_are_played_when_due(events, course.cursors[k], k);
        let m = course.cursors[i];
        assert forall|j: int| m <= j < events.len() implies (#[trigger] events[j]).at() >= i by {
            assert(events[m].at() >= k);
            assert(events[m].at() <= events[j].at());
        }
    }
}

/// When an event is due does not matter to what it does.
proof fn lemma_events_brought_forward<N: Scalar>(
    pre: SineOne<N>,
    post: SineOne<N>,
    events: Seq<NoteEvent<N>>,
    voice_count: usize,
    t: int,
)
    requires
        pre.handled_all(post, events, voice_count),
    ensures
        pre.handled_all(post, rest_of(events, 0, t), voice_count),
    decreases events.len(),
{
    if events.len() > 0 {
        let mid = choose|mid: SineOne<N>|
            {
                &&& pre.handled_all(mid, events.drop_last(), voice_count)
                &&& #[trigger] mid.handled(post, events.last(), voice_count)
            };
        lemma_events_brought_forward(pre, mid, events.drop_last(), voice_count, t);
        let moved = rest_of(events, 0, t);
        assert(moved.drop_last() =~= rest_of(events.drop_last(), 0, t));
        assert(moved.last() == brought_forward(events.last(), t));
        assert(mid.handled(post, moved.last(), voice_count));
    }
}

/// Events that are brought forward are due that much earlier.
proof fn lemma_due_brought_forward<N>(
    events: Seq<NoteEvent<N>>,
    first: int,
    t: int,
    from: int,
    sample_idx: int,
)
    requires
        0 <= t <= sample_idx,
        0 <= first <= from <= events.len(),
        forall|k: int| first <= k < events.len() ==> (#[trigger] events[k]).at() >= t,
    ensures
        due_end(rest_of(events, first, t), from - first, sample_idx - t) == due_end(
            events,
            from,
            sample_idx,
        ) - first,
    decreases events.len() - from,
{
    if from < events.len() {
        let rest = rest_of(events, first, t);
        assert(rest[from - first] == brought_forward(events[from], t));
        assert(events[from].at() >= t);
        if events[from].at() == sample_idx {
            lemma_due_brought_forward(events, first, t, from + 1, sample_idx);
        }
    }
}

/// Neither events nor samples change parameters, sample rate or number of voices.
proof fn lemma_events_keep_settings<N: Scalar>(
    pre: SineOne<N>,
    post: SineOne<N>,
    events: Seq<NoteEvent<N>>,
    voice_count: usize,
)
    requires
        pre.handled_all(post, events, voice_count),
    ensures
        post.params == pre.params,
        post.sample_rate == pre.sample_rate,
        post.previous_voice_count == pre.previous_voice_count,
    decreases events.len(),
{
    if events.len() > 0 {
        let mid = choose|mid: SineOne<N>|
            {
                &&& pre.handled_all(mid, events.drop_last(), voice_count)
                &&& #[trigger] mid.handled(post, events.last(), voice_count)
            };
        lemma_events_keep_settings(pre, mid, events.drop_last(), voice_count);
    }
}

proof fn lemma_course_keeps_settings<N: Scalar>(
    course: BlockCourse<N>,
    start: SineOne<N>,
    voice_count: usize,
    events: Seq<NoteEvent<N>>,
    controls: Seq<SampleControls<N>>,
    output_gain: N,
    left: Seq<N>,
    right: Seq<N>,
    n: int,
    i: int,
)
    requires
        course.is_course(start, voice_count, events, controls, output_gain, left, right, n),
        0 <= i <= n,
    ensures
        course.states[i].params == start.params,
        course.states[i].sample_rate == start.sample_rate,
        course.states[i].previous_voice_count == start.previous_voice_count,
        i < n ==> course.played[i].params == start.params,
        i < n ==> course.played[i].sample_rate == start.sample_rate,
    decreases i,
{
    if i > 0 {
        lemma_course_keeps_settings(
            course,
            start,
            voice_count,
            events,
            controls,
            output_gain,
            left,
            right,
            n,
            i - 1,
        );
        assert(course.takes_sample(
            voice_count,
            events,
            controls,
            output_gain,
            left,
            right,
            i - 1,
        ));
        lemma_events_keep_settings(
            course.states[i - 1],
            course.played[i - 1],
            events.subrange(course.cursors[i - 1], course.cursors[i - 1 + 1]),
            voice_count,
        );
    }
    if i < n {
        assert(course.takes_sample(
            voice_count,
            events,
            controls,
            output_gain,
            left,
            right,
            i,
        ));
        lemma_events_keep_settings(
            course.states[i],
            course.played[i],
            events.subrange(course.cursors[i], course.cursors[i + 1]),
            voice_count,
        );
    }
}

/// A block can be cut at any sample: its first part is the block of the first
/// controls and of the events that are due in them, and its second part is the
/// block of the other controls and of the other events, brought forward.
pub proof fn law_block_splits<N: Scalar>(
    pre: SineOne<N>,
    post: SineOne<N>,
    events: Seq<NoteEvent<N>>,
    controls: Seq<SampleControls<N>>,
    output_gain: N,
    left: Seq<N>,
    right: Seq<N>,
    first: int,
    t: int,
) -> (mid: SineOne<N>)
    requires
        is_processed(pre, post, events, controls, output_gain, left, right),
        left.len() == controls.len(),
        right.len() == controls.len(),
        0 <= t <= controls.len(),
        is_cut(events, first, t),
    ensures
        is_processed(
            pre,
            mid,
            events.take(first),
            controls.take(t),
            output_gain,
            left.take(t),
            right.take(t),
        ),
        is_processed(
            mid,
            post,
            rest_of(events, first, t),
            controls.skip(t),
            output_gain,
            left.skip(t),
            right.skip(t),
        ),
{
    let count = held_voice_count(pre.params.voices.value);
    let n = controls.len() as int;
    let (start, course) = choose|start: SineOne<N>, course: BlockCourse<N>|
        {
            &&& #[trigger] pre.resized(start, count)
            &&& #[trigger] course.is_course(
                start,
                count,
                events,
                controls,
                output_gain,
                left,
                right,
                n,
            )
            &&& post == course.states.last()
        };
    lemma_course_keeps_settings(
        course,
        start,
        count,
        events,
        controls,
        output_gain,
        left,
        right,
        n,
        t,
    );
    lemma_cursor_keeps_up(course, start, count, events, controls, output_gain, left, right, n, t);
    let m = course.cursors[t];
    if m < first {
        assert(events[m].at() < t);
    }
    if first < m {
        assert(events[first].at() >= t);
    }
    let mid = course.states[t];

    let head = BlockCourse {
        states: course.states.take(t + 1),
        played: course.played.take(t),
        cursors: course.cursors.take(t + 1),
    };
    let early = events.take(first);
    assert forall|i: int| 0 <= i < t implies #[trigger] head.takes_sample(
        count,
        early,
        controls.take(t),
        output_gain,
        left.take(t),
        right.take(t),
        i,
    ) by {
        assert(course.takes_sample(count, events, controls, output_gain, left, right, i));
        lemma_cursor_keeps_up(
            course,
            start,
            count,
            events,
            controls,
            output_gain,
            left,
            right,
            n,
            i,
        );
        let c = course.cursors[i];
        if first < c {
            assert(events[first].at() < i);
        }
        assert(early.take(first) =~= events.take(first));
        lemma_due_within_lead(events, early, first, c, i, t);
        assert(early.subrange(c, course.cursors[i + 1]) =~= events.subrange(
            c,
            course.cursors[i + 1],
        ));
    }
    assert(head.is_course(
        start,
        count,
        early,
        controls.take(t),
        output_gain,
        left.take(t),
        right.take(t),
        controls.take(t).len() as int,
    ));
    assert(head.states.last() == mid);

    let tail = BlockCourse {
        states: course.states.skip(t),
        played: course.played.skip(t),
        cursors: Seq::new((n - t + 1) as nat, |i: int| course.cursors[t + i] - first),
    };
    let late = rest_of(events, first, t);
    assert forall|i: int| 0 <= i < n - t implies #[trigger] tail.takes_sample(
        count,
        late,
        controls.skip(t),
        output_gain,
        left.skip(t),
        right.skip(t),
        i,
    ) by {
        let k = t + i;
        assert(course.takes_sample(count, events, controls, output_gain, left, right, k));
        lemma_cursor_keeps_up(
            course,
            start,
            count,
            events,
            controls,
            output_gain,
            left,
            right,
            n,
            k,
        );
        let c = course.cursors[k];
        if c < first {
            assert(events[c].at() < t);
        }
        lemma_due_brought_forward(events, first, t, c, k);
        let due = events.subrange(c, course.cursors[k + 1]);
        lemma_events_brought_forward(course.states[k], course.played[k], due, count, t);
        assert(late.subrange(c - first, course.cursors[k + 1] - first) =~= rest_of(due, 0, t));
    }
    assert(tail.is_course(
        mid,
        count,
        late,
        controls.skip(t),
        output_gain,
        left.skip(t),
        right.skip(t),
        controls.skip(t).len() as int,
    ));
    assert(mid.resized(mid, count));
    assert(tail.states.last() == post);
    mid
}

/// Two blocks in a row sound as the one block that they are the parts of.
pub proof fn law_blocks_in_a_row_sound_as_one<N: Scalar>(
    pre: SineOne<N>,
    post: SineOne<N>,
    events: Seq<NoteEvent<N>>,
    controls: Seq<SampleControls<N>>,
    output_gain: N,
    left: Seq<N>,
    right: Seq<N>,
    first: int,
    t: int,
    mid: SineOne<N>,
    first_left: Seq<N>,
    first_right: Seq<N>,
    last: SineOne<N>,
    second_left: Seq<N>,
    second_right: Seq<N>,
)
    requires
        repeatable::<N>(),
        is_processed(pre, post, events, controls, output_gain, left, right),
        left.len() == controls.len(),
        right.len() == controls.len(),
        0 <= t <= controls.len(),
        is_cut(events, first, t),
        is_processed(
            pre,
            mid,
            events.take(first),
            controls.take(t),
            output_gain,
            first_left,
            first_right,
        ),
        is_processed(
            mid,
            last,
            rest_of(events, first, t),
            controls.skip(t),
            output_gain,
            second_left,
            second_right,
        ),
        first_left.len() == t,
        first_right.len() == t,
        second_left.len() == controls.len() - t,
        second_right.len() == controls.len() - t,
    ensures
        left == first_left + second_left,
        right == first_right + second_right,
        post.agrees_with(last),
{
    let cut = law_block_splits(
        pre,
        post,
        events,
        controls,
        output_gain,
        left,
        right,
        first,
        t,
    );
    assert(pre.agrees_with(pre));
    law_agreeing_synths_play_alike(
        pre,
        pre,
        events.take(first),
        controls.take(t),
        output_gain,
        cut,
        left.take(t),
        right.take(t),
        mid,
        first_left,
        first_right,
    );
    law_agreeing_synths_play_alike(
        cut,
        mid,
        rest_of(events, first, t),
        controls.skip(t),
        output_gain,
        post,
        left.skip(t),
        right.skip(t),
        last,
        second_left,
        second_right,
    );
    assert forall|i: int| 0 <= i < left.len() implies left[i] == (first_left + second_left)[i]
        && right[i] == (first_right + second_right)[i] by {
        if i < t {
            assert(left.take(t)[i] == first_left[i]);
            assert(right.take(t)[i] == first_right[i]);
        } else {
            assert(left.skip(t)[i - t] == second_left[i - t]);
            assert(right.skip(t)[i - t] == second_right[i - t]);
        }
    }
    assert(left =~= first_left + second_left);
    assert(right =~= first_right + second_right);
}

/// Of events in a row the first can be played by itself.
proof fn lemma_first_event<N: Scalar>(
    pre: SineOne<N>,
    post: SineOne<N>,
    events: Seq<NoteEvent<N>>,
    voice_count: usize,
) -> (mid: SineOne<N>)
    requires
        pre.handled_all(post, events, voice_count),
        events.len() > 0,
    ensures
        pre.handled(mid, events[0], voice_count),
        mid.handled_all(post, events.skip(1), voice_count),
    decreases events.len(),
{
    let before = choose|mid: SineOne<N>|
        {
            &&& pre.handled_all(mid, events.drop_last(), voice_count)
            &&& #[trigger] mid.handled(post, events.last(), voice_count)
        };
    if events.len() == 1 {
        assert(before == pre);
        assert(events.skip(1).len() == 0);
        post
    } else {
        let mid = lemma_first_event(pre, before, events.drop_last(), voice_count);
        assert(events.skip(1).drop_last() =~= events.drop_last().skip(1));
        assert(events.skip(1).last() == events.last());
        assert(before.handled(post, events.skip(1).last(), voice_count));
        mid
    }
}

/// Without the first event the others are due as before.
proof fn lemma_due_after_first<N>(events: Seq<NoteEvent<N>>, from: int, sample_idx: int)
    requires
        0 < from <= events.len(),
    ensures
        due_end(events.skip(1), from - 1, sample_idx) == due_end(events, from, sample_idx) - 1,
    decreases events.len() - from,
{
    if from < events.len() {
        assert(events.skip(1)[from - 1] == events[from]);
        if events[from].at() == sample_idx {
            lemma_due_after_first(events, from + 1, sample_idx);
        }
    }
}

/// An event that is due at the begin of a block comes before all of its samples:
/// the block is that of a synthesizer which has handled the event, without it.
pub proof fn law_event_comes_before_its_sample<N: Scalar>(
    pre: SineOne<N>,
    post: SineOne<N>,
    events: Seq<NoteEvent<N>>,
    controls: Seq<SampleControls<N>>,
    output_gain: N,
    left: Seq<N>,
    right: Seq<N>,
) -> (mid: SineOne<N>)
    requires
        is_processed(pre, post, events, controls, output_gain, left, right),
        pre.previous_voice_count == held_voice_count(pre.params.voices.value),
        controls.len() > 0,
        events.len() > 0,
        events[0].at() == 0,
    ensures
        pre.handled(mid, events[0], pre.previous_voice_count),
        is_processed(mid, post, events.skip(1), controls, output_gain, left, right),
{
    let count = pre.previous_voice_count;
    let n = controls.len() as int;
    let (start, course) = choose|start: SineOne<N>, course: BlockCourse<N>|
        {
            &&& #[trigger] pre.resized(start, count)
            &&& #[trigger] course.is_course(
                start,
                count,
                events,
                controls,
                output_gain,
                left,
                right,
                n,
            )
            &&& post == course.states.last()
        };
    assert(course.takes_sample(count, events, controls, output_gain, left, right, 0));
    law_events_are_played_when_due(events, 1, 0);
    let due = events.subrange(0, course.cursors[1]);
    assert(due[0] == events[0]);
    let mid = lemma_first_event(start, course.played[0], due, count);
    lemma_events_keep_settings_once(start, mid, events[0], count);
    let rest = events.skip(1);
    let after = BlockCourse {
        states: course.states.update(0, mid),
        played: course.played,
        cursors: Seq::new(
            (n + 1) as nat,
            |i: int|
                if i == 0 {
                    0
                } else {
                    course.cursors[i] - 1
                },
        ),
    };
    assert forall|i: int| 0 <= i < n implies #[trigger] after.takes_sample(
        count,
        rest,
        controls,
        output_gain,
        left,
        right,
        i,
    ) by {
        assert(course.takes_sample(count, events, controls, output_gain, left, right, i));
        lemma_cursor_has_begun(
            course,
            start,
            count,
            events,
            controls,
            output_gain,
            left,
            right,
            n,
            i + 1,
        );
        if i == 0 {
            lemma_due_after_first(events, 1, 0);
            assert(rest.subrange(0, course.cursors[1] - 1) =~= due.skip(1));
        } else {
            lemma_cursor_has_begun(
                course,
                start,
                count,
                events,
                controls,
                output_gain,
                left,
                right,
                n,
                i,
            );
            lemma_due_after_first(events, course.cursors[i], i);
            assert(rest.subrange(course.cursors[i] - 1, course.cursors[i + 1] - 1)
                =~= events.subrange(course.cursors[i], course.cursors[i + 1]));
        }
    }
    assert(after.is_course(
        mid,
        count,
        rest,
        controls,
        output_gain,
        left,
        right,
        controls.len() as int,
    ));
    assert(mid.resized(mid, count));
    assert(after.states.last() == post);
    mid
}

proof fn lemma_events_keep_settings_once<N: Scalar>(
    pre: SineOne<N>,
    post: SineOne<N>,
    event: NoteEvent<N>,
    voice_count: usize,
)
    requires
        pre.handled(post, event, voice_count),
    ensures
        post.params == pre.params,
        post.sample_rate == pre.sample_rate,
        post.previous_voice_count == pre.previous_voice_count,
{
}

/// Once the first event was due, the cursor is behind it.
proof fn lemma_cursor_has_begun<N: Scalar>(
    course: BlockCourse<N>,
    start: SineOne<N>,
    voice_count: usize,
    events: Seq<NoteEvent<N>>,
    controls: Seq<SampleControls<N>>,
    output_gain: N,
    left: Seq<N>,
    right: Seq<N>,
    n: int,
    i: int,
)
    requires
        course.is_course(start, voice_count, events, controls, output_gain, left, right, n),
        events.len() > 0,
        events[0].at() == 0,
        0 < i <= n,
    ensures
        0 < course.cursors[i] <= events.len(),
    decreases i,
{
    let k = i - 1;
    assert(course.takes_sample(voice_count, events, controls, output_gain, left, right, k));
    if k > 0 {
        lemma_cursor_has_begun(
            course,
            start,
            voice_count,
            events,
            controls,
            output_gain,
            left,
            right,
            n,
            k,
        );
    } else {
        law_events_are_played_when_due(events, 1, 0);
    }
}

/// Sample `i` of a block is one render, with the controls of that sample, of the
/// synthesizer as events have left it; the last one ends the block.
pub proof fn law_sample_has_controls_of_its_own<N: Scalar>(
    pre: SineOne<N>,
    post: SineOne<N>,
    events: Seq<NoteEvent<N>>,
    controls: Seq<SampleControls<N>>,
    output_gain: N,
    left: Seq<N>,
    right: Seq<N>,
    i: int,
) -> (found: (SineOne<N>, SineOne<N>))
    requires
        is_processed(pre, post, events, controls, output_gain, left, right),
        0 <= i < controls.len(),
    ensures
        found.0.rendered(found.1, controls[i], output_gain, (left[i], right[i])),
        found.0.sample_rate == pre.sample_rate,
        found.0.params == pre.params,
        i == controls.len() - 1 ==> found.1 == post,
{
    let count = held_voice_count(pre.params.voices.value);
    let n = controls.len() as int;
    let (start, course) = choose|start: SineOne<N>, course: BlockCourse<N>|
        {
            &&& #[trigger] pre.resized(start, count)
            &&& #[trigger] course.is_course(
                start,
                count,
                events,
                controls,
                output_gain,
                left,
                right,
                n,
            )
            &&& post == course.states.last()
        };
    assert(course.takes_sample(count, events, controls, output_gain, left, right, i));
    lemma_course_keeps_settings(
        course,
        start,
        count,
        events,
        controls,
        output_gain,
        left,
        right,
        n,
        i,
    );
    (course.played[i], course.states[i + 1])
}

/// A block ends in the tune of its last sample: a voice that sounds moves by
/// `base_freq * 2 ^ (cents / 1200) / sample_rate` cycles per sample, with the cents
/// of the last controls, whatever those before them were.
pub proof fn law_block_ends_in_tune<N: Scalar>(
    pre: SineOne<N>,
    post: SineOne<N>,
    events: Seq<NoteEvent<N>>,
    controls: Seq<SampleControls<N>>,
    output_gain: N,
    left: Seq<N>,
    right: Seq<N>,
    idx: int,
)
    requires
        is_processed(pre, post, events, controls, output_gain, left, right),
        controls.len() > 0,
        0 <= idx < MAX_VOICES,
        post.voices@[idx].env.state != EnvState::Idle,
    ensures
        evaluates(
            val(post.voices@[idx].base_freq).times(
                lit(TWO).power(
                    val(controls.last().fine_tune_cents).over(lit(CENTS_PER_OCTAVE)),
                ),
            ).over(val(pre.sample_rate)),
            post.voices@[idx].osc.phase_increment,
        ),
{
    let (before, after) = law_sample_has_controls_of_its_own(
        pre,
        post,
        events,
        controls,
        output_gain,
        left,
        right,
        controls.len() - 1,
    );
    let (gain, lefts, rights) = choose|gain: N, lefts: Seq<N>, rights: Seq<N>| #[trigger]
        before.mixed(
            after,
            controls.last(),
            output_gain,
            gain,
            lefts,
            rights,
            (left[controls.len() - 1], right[controls.len() - 1]),
        );
    assert(post.voices@[idx] == after.voices@[idx]);
    law_voice_is_in_tune(
        before.voices@[idx],
        after.voices@[idx],
        controls.last().fine_tune_cents,
        controls.last().fold,
        controls.last().lpg_depth,
        controls.last().lpg_cutoff_hz,
        controls.last().lpg_resonance,
        before.sample_rate,
        (lefts[idx], rights[idx]),
    );
}

} // verus!
