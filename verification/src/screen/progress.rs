//! What the screen shows of the downloads under way.

use std::collections::BTreeMap;

use vstd::prelude::*;

use crate::app;
use crate::app::{ActiveDownloadStatus, App, State};
use crate::text;

verus! {


/// Whether keys are those of a map, in ascending order.
pub open spec fn in_order<V>(keys: Seq<usize>, jobs: Map<usize, V>) -> bool {
    &&& forall|i: int, j: int| 0 <= i < j < keys.len() ==> keys[i] < keys[j]
    &&& forall|i: int| 0 <= i < keys.len() ==> jobs.contains_key(#[trigger] keys[i])
    &&& forall|k: usize| #[trigger] jobs.contains_key(k) ==> keys.contains(k)
}

proof fn lemma_increasing(keys: Seq<usize>)
    requires
        vstd::std_specs::btree::increasing_seq(keys),
    ensures
        forall|i: int, j: int| 0 <= i < j < keys.len() ==> keys[i] < keys[j],
{
    assert forall|i: int, j: int| 0 <= i < j < keys.len() implies keys[i] < keys[j] by {
        assert(vstd::std_specs::cmp::OrdSpec::cmp_spec(&keys[i], &keys[j]) is Less);
    }
}

/// Lists the downloads that are under way, in the order of their indices.
fn job_keys(jobs: &BTreeMap<usize, ActiveDownloadStatus>) -> (keys: Vec<usize>)
    ensures
        in_order(keys@, jobs@),
{
    let mut keys: Vec<usize> = Vec::new();
    let it = jobs.iter();
    let ghost pairs = vstd::std_specs::iter::IteratorSpec::remaining(&it);
    let ghost all = pairs.map_values(|kv: (&usize, &ActiveDownloadStatus)| *kv.0);
    for pair in iter: it
        invariant
            iter.seq() == pairs,
            all == pairs.map_values(|kv: (&usize, &ActiveDownloadStatus)| *kv.0),
            keys@ =~= all.take(iter.index() as int),
    {
        keys.push(*pair.0);
    }
    assert(keys@ =~= all);
    proof {
        lemma_increasing(all);
    }
    assert forall|k: usize| #[trigger] jobs@.contains_key(k) implies keys@.contains(k) by {
        assert(pairs.contains((&k, &jobs@[k])));
        let i = choose|i: int| 0 <= i < pairs.len() && pairs[i] == (&k, &jobs@[k]);
        assert(keys@[i] == k);
    }
    assert forall|i: int| 0 <= i < keys@.len() implies jobs@.contains_key(#[trigger] keys@[i]) by {
        assert(jobs@.contains_key(*pairs[i].0));
    }
    keys
}


// ---------------------------------------------------------------------------------------------
// Parts of a line
// ---------------------------------------------------------------------------------------------
/// A text cut to some characters, with dots behind it where something was cut.
pub open spec fn truncated(label: Seq<char>, limit: nat) -> Seq<char> {
    if label.len() <= limit {
        label
    } else {
        label.take(limit as int) + "..."@
    }
}

/// Cuts a text to some characters.
pub fn truncate_label(label: &str, max_len: usize) -> (short: String)
    ensures
        short@ == truncated(label@, max_len as nat),
{
    let chars = text::chars_of(label);
    if chars.len() <= max_len {
        return label.to_owned();
    }
    let mut short = text::text_of(&chars, 0, max_len);
    assert(chars@.subrange(0, max_len as int) =~= label@.take(max_len as int));
    short.append("...");
    short
}

/// A bar of so many places, filled from the left.
pub open spec fn bar(filled: nat, width: nat) -> Seq<char> {
    let full = if filled <= width {
        filled
    } else {
        width
    };
    "["@ + text::repeated('=', full) + text::repeated(' ', (width - full) as nat) + "]"@
}

/// Draws a bar of so many places, filled from the left.
pub fn progress_bar(filled: usize, width: usize) -> (drawn: String)
    ensures
        drawn@ == bar(filled as nat, width as nat),
{
    let full = if filled <= width {
        filled
    } else {
        width
    };
    let mut drawn = "[".to_owned();
    drawn.append(text::repeat_char('=', full).as_str());
    drawn.append(text::repeat_char(' ', width - full).as_str());
    drawn.append("]");
    drawn
}

/// A bar is always as wide as it should be, with its brackets.
pub proof fn law_bars_have_one_width(filled: nat, width: nat)
    ensures
        bar(filled, width).len() == width + 2,
{
    reveal_strlit("[");
    reveal_strlit("]");
}

/// A cut text is no longer than asked for, but for the dots.
pub proof fn law_cut_labels_are_short(label: Seq<char>, limit: nat)
    ensures
        truncated(label, limit).len() <= limit + 3,
{
    reveal_strlit("...");
}

// ---------------------------------------------------------------------------------------------
// The downloads under way
// ---------------------------------------------------------------------------------------------
/// What only floating-point arithmetic tells of a download: how many of the twelve places of its
/// bar are filled, and its bytes in larger units. Each counts only where the total is known, and
/// the places only where it is not zero.
#[derive(Debug)]
pub struct Measure {
    pub filled: usize,
    pub bytes: String,
}

/// The text on the bytes of a download: the one in larger units where the total is known.
pub open spec fn bytes_label(job: app::Active, measure: Measure) -> Seq<char> {
    if job.total_bytes is Some {
        measure.bytes@
    } else {
        text::decimal(job.bytes_downloaded as nat) + " bytes"@
    }
}

/// The number of filled places of a bar: none where no total is known, or one of zero.
pub open spec fn filled_places(job: app::Active, measure: Measure) -> nat {
    match job.total_bytes {
        Some(total) if total > 0 => measure.filled as nat,
        _ => 0,
    }
}

/// The line on one download.
pub open spec fn job_line(index: usize, job: app::Active, measure: Measure) -> Seq<char> {
    "#"@ + text::decimal((index + 1) as nat) + " "@ + bar(filled_places(job, measure), 12) + "  "@
        + bytes_label(job, measure) + "  "@ + truncated(
        job.title + " ("@ + job.file_name + ")"@,
        36,
    )
}

/// The number of downloads that are shown: four at most.
pub open spec fn shown_jobs(count: nat) -> nat {
    if count <= 4 {
        count
    } else {
        4
    }
}

/// The lines on the first downloads, in the order of `keys`, and one on how many more there are.
pub open spec fn job_lines(
    jobs: Map<usize, app::Active>,
    keys: Seq<usize>,
    measures: Seq<Measure>,
) -> Seq<Seq<char>> {
    let first = Seq::new(
        shown_jobs(keys.len()),
        |i: int| job_line(keys[i], jobs[keys[i]], measures[i]),
    );
    if keys.len() > 4 {
        first.push(
            "... and "@ + text::decimal((keys.len() - 4) as nat) + " more active download(s)"@,
        )
    } else {
        first
    }
}

/// Writes the line on one download.
fn write_job_line(index: usize, job: &ActiveDownloadStatus, measure: &Measure) -> (out: String)
    requires
        index < usize::MAX,
    ensures
        out@ == job_line(index, job@, *measure),
{
    let mut out = "#".to_owned();
    out.append(text::count_text(index + 1).as_str());
    out.append(" ");
    let filled: usize = match job.total_bytes {
        Some(total) if total > 0 => measure.filled,
        _ => 0,
    };
    out.append(progress_bar(filled, 12).as_str());
    out.append("  ");
    if job.total_bytes.is_some() {
        out.append(measure.bytes.as_str());
    } else {
        let mut bytes = text::decimal_text(job.bytes_downloaded);
        bytes.append(" bytes");
        out.append(bytes.as_str());
    }
    out.append("  ");
    let mut name = job.title.clone();
    name.append(" (");
    name.append(job.file_name.as_str());
    name.append(")");
    out.append(truncate_label(name.as_str(), 36).as_str());
    out
}

/// Lists the downloads that are shown, in the order in which they are.
pub fn shown_active_jobs(app: &App) -> (keys: Vec<usize>)
    ensures
        match app@.status {
            Some(status) => exists|all: Seq<usize>| #[trigger]
                in_order(all, status.active_jobs) && keys@ == all.take(
                    shown_jobs(all.len()) as int,
                ),
            None => keys@.len() == 0,
        },
{
    match &app.status {
        Some(status) => {
            let mut keys = job_keys(&status.active_jobs);
            let ghost all = keys@;
            assert(in_order(all, app@.status->0.active_jobs));
            if keys.len() > 4 {
                keys.truncate(4);
            } else {
                assert(all.take(all.len() as int) =~= all);
            }
            keys
        },
        None => Vec::new(),
    }
}

/// What is shown of the downloads under way.
pub open spec fn shows_progress(
    state: State,
    measures: Seq<Measure>,
    shown: Seq<Seq<char>>,
) -> bool {
    match state.status {
        None => shown == seq!["No active download yet."@],
        Some(status) => {
            ||| shown == seq!["Waiting for workers to start."@] && status.active_jobs.len() == 0
            ||| status.active_jobs.len() > 0 && exists|keys: Seq<usize>| #[trigger]
                in_order(keys, status.active_jobs) && shown == job_lines(
                    status.active_jobs,
                    keys,
                    measures,
                )
        },
    }
}

/// Writes what is shown of the downloads under way, given a measure of each that is shown.
pub fn render_progress(app: &App, measures: &Vec<Measure>) -> (list: Vec<String>)
    requires
        app::sound(app@),
        app@.status matches Some(status) ==> measures.len() >= shown_jobs(
            status.active_jobs.len(),
        ),
    ensures
        shows_progress(app@, measures@, text::texts(list@)),
{
    let mut list: Vec<String> = Vec::new();
    match &app.status {
        None => {
            list.push("No active download yet.".to_owned());
            assert(text::texts(list@) =~= seq!["No active download yet."@]);
        },
        Some(status) => {
            let ghost jobs = app@.status->0.active_jobs;
            let keys = job_keys(&status.active_jobs);
            assert(in_order(keys@, jobs));
            proof {
                lemma_as_many_keys(keys@, status.active_jobs@);
                assert(jobs.dom() =~= status.active_jobs@.dom());
            }
            if keys.len() == 0 {
                list.push("Waiting for workers to start.".to_owned());
                assert(text::texts(list@) =~= seq!["Waiting for workers to start."@]);
                return list;
            }
            let count: usize = if keys.len() <= 4 {
                keys.len()
            } else {
                4
            };
            let ghost goal = job_lines(jobs, keys@, measures@);
            let mut i: usize = 0;
            while i < count
                invariant
                    i <= count == shown_jobs(keys@.len()),
                    count <= keys@.len(),
                    count <= measures@.len(),
                    goal == job_lines(jobs, keys@, measures@),
                    jobs == app::active(status.active_jobs@),
                    in_order(keys@, jobs),
                    !jobs.contains_key(usize::MAX),
                    text::texts(list@) =~= goal.take(i as int),
                decreases count - i,
            {
                let key = keys[i];
                assert(jobs.contains_key(keys@[i as int]));
                let ghost before = text::texts(list@);
                if let Some(job) = status.active_jobs.get(&key) {
                    list.push(write_job_line(key, job, &measures[i]));
                    assert(goal[i as int] == job_line(key, jobs[key], measures@[i as int]));
                    assert(text::texts(list@) =~= before.push(goal[i as int]));
                }
                i = i + 1;
            }
            if keys.len() > 4 {
                let ghost before = text::texts(list@);
                let mut more = "... and ".to_owned();
                more.append(text::count_text(keys.len() - 4).as_str());
                more.append(" more active download(s)");
                list.push(more);
                assert(text::texts(list@) =~= before.push(more@));
            }
            assert(text::texts(list@) =~= goal);
        },
    }
    list
}

proof fn lemma_as_many_keys<V>(keys: Seq<usize>, jobs: Map<usize, V>)
    requires
        in_order(keys, jobs),
    ensures
        keys.len() == jobs.len(),
{
    assert(keys.no_duplicates());
    keys.unique_seq_to_set();
    assert(keys.to_set() =~= jobs.dom());
}

/// The height of the part of the footer for the downloads under way.
pub open spec fn height_for(status: Option<app::Status>) -> nat {
    match status {
        Some(status) => {
            let count = status.active_jobs.len();
            if count == 0 {
                3
            } else if count > 4 {
                7
            } else {
                count + 2
            }
        },
        None => 3,
    }
}

/// Computes the height of the part of the footer for the downloads under way.
pub fn active_height(app: &App) -> (height: u16)
    ensures
        height == height_for(app@.status),
{
    match &app.status {
        Some(status) => {
            assert(app@.status->0.active_jobs.dom() =~= status.active_jobs@.dom());
            let count = status.active_jobs.len();
            if count == 0 {
                3
            } else if count > 4 {
                7
            } else {
                count as u16 + 2
            }
        },
        None => 3,
    }
}

/// Without a known total the bar is empty and the bytes are counted, whatever was measured.
pub proof fn law_unknown_sizes_show_bytes(index: usize, job: app::Active, measure: Measure)
    requires
        job.total_bytes is None,
    ensures
        job_line(index, job, measure) == "#"@ + text::decimal((index + 1) as nat) + " "@ + bar(
            0,
            12,
        ) + "  "@ + (text::decimal(job.bytes_downloaded as nat) + " bytes"@) + "  "@ + truncated(
            job.title + " ("@ + job.file_name + ")"@,
            36,
        ),
{
}

/// The downloads that are shown fit in the part of the footer for them, with its border.
pub proof fn law_progress_fits(
    status: app::Status,
    keys: Seq<usize>,
    measures: Seq<Measure>,
)
    requires
        in_order(keys, status.active_jobs),
        keys.len() > 0,
    ensures
        job_lines(status.active_jobs, keys, measures).len() + 2 <= height_for(Some(status)),
{
    lemma_as_many_keys(keys, status.active_jobs);
}

// ---------------------------------------------------------------------------------------------
// What a line tells
// ---------------------------------------------------------------------------------------------
/// A bar is filled from the left, place by place, and never beyond its end.
pub proof fn law_bars_are_filled_from_the_left(filled: nat, width: nat, i: int)
    requires
        0 <= i < width,
    ensures
        bar(filled, width)[0] == '[',
        bar(filled, width)[width + 1int] == ']',
        bar(filled, width)[1 + i] == if i < filled {
            '='
        } else {
            ' '
        },
{
    reveal_strlit("[");
    reveal_strlit("]");
}

/// A text that is short enough stays whole; of a longer one as many characters stay as there may
/// be, with dots behind them.
pub proof fn law_long_labels_are_cut(label: Seq<char>, limit: nat)
    ensures
        label.len() <= limit ==> truncated(label, limit) == label,
        label.len() > limit ==> truncated(label, limit) == label.take(limit as int) + "..."@,
{
}

/// With a known total, the bar is filled as far as was measured, unless the total is zero, and the
/// bytes are shown as they were measured. The line begins with the number of the job and ends with
/// its title and file.
pub proof fn law_known_sizes_show_the_measure(index: usize, job: app::Active, measure: Measure)
    requires
        job.total_bytes is Some,
    ensures
        job_line(index, job, measure) == "#"@ + text::decimal((index + 1) as nat) + " "@ + bar(
            if job.total_bytes->0 > 0 {
                measure.filled as nat
            } else {
                0
            },
            12,
        ) + "  "@ + measure.bytes@ + "  "@ + truncated(
            job.title + " ("@ + job.file_name + ")"@,
            36,
        ),
{
}

/// Of the downloads under way the first four are shown, one line for each, in their order; where
/// there are more, the last line tells how many.
pub proof fn law_first_four_are_shown(
    jobs: Map<usize, app::Active>,
    keys: Seq<usize>,
    measures: Seq<Measure>,
    i: int,
)
    requires
        0 <= i < keys.len(),
        i < 4,
    ensures
        shown_jobs(keys.len()) <= 4,
        shown_jobs(keys.len()) == keys.len() || shown_jobs(keys.len()) == 4 && keys.len() > 4,
        job_lines(jobs, keys, measures)[i] == job_line(keys[i], jobs[keys[i]], measures[i]),
        keys.len() <= 4 ==> job_lines(jobs, keys, measures).len() == keys.len(),
        keys.len() > 4 ==> {
            &&& job_lines(jobs, keys, measures).len() == 5
            &&& job_lines(jobs, keys, measures)[4] == "... and "@ + text::decimal(
                (keys.len() - 4) as nat,
            ) + " more active download(s)"@
        },
{
}

/// The part of the footer for the downloads under way is as high as their lines, with its border;
/// where there are none, as high as for one line.
pub proof fn law_footers_fit_their_lines(status: app::Status)
    ensures
        height_for(None) == 3,
        height_for(Some(status)) == 2 + if status.active_jobs.len() == 0 {
            1
        } else if status.active_jobs.len() <= 4 {
            status.active_jobs.len() as int
        } else {
            5
        },
{
}

/// The downloads under way are listed in ascending order of their numbers, each once.
pub proof fn law_jobs_are_listed_in_ascending_order<V>(
    keys: Seq<usize>,
    jobs: Map<usize, V>,
)
    requires
        in_order(keys, jobs),
    ensures
        forall|i: int, j: int| 0 <= i < j < keys.len() ==> keys[i] < keys[j],
        forall|key: usize| jobs.contains_key(key) == #[trigger] keys.contains(key),
{
    assert forall|key: usize| jobs.contains_key(key) == #[trigger] keys.contains(key) by {
        if keys.contains(key) {
            let i = choose|i: int| 0 <= i < keys.len() && keys[i] == key;
            assert(jobs.contains_key(keys[i]));
        }
    }
}

/// What is shown of the downloads under way is that there are none yet, that none has started, or a
/// line for each of the first.
pub proof fn law_progress_tells_what_is_under_way(
    state: State,
    measures: Seq<Measure>,
    shown: Seq<Seq<char>>,
)
    requires
        shows_progress(state, measures, shown),
    ensures
        state.status is None ==> shown == seq!["No active download yet."@],
        state.status matches Some(status) ==> status.active_jobs.len() == 0 ==> shown == seq![
            "Waiting for workers to start."@,
        ],
        state.status matches Some(status) ==> status.active_jobs.len() > 0 ==> exists|
            keys: Seq<usize>,
        | #[trigger]
            in_order(keys, status.active_jobs) && shown == job_lines(
                status.active_jobs,
                keys,
                measures,
            ),
{
}

} // verus!
