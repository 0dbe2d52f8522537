//! Where the cards of the dashboard stand.
//!
//! The program that runs on a computer of its own takes in phones and has a scope to
//! show them; the one that runs in a browser has neither.

use vstd::prelude::*;

use crate::ring::section;

verus! {

/// The cards.
#[derive(Clone, Copy, Debug, PartialEq, Eq, Structural)]
pub enum Panel {
    Spectrum,
    Spectrogram,
    Chroma,
    Scope,
    History,
    Waveform,
    Visibility,
}

/// The height of a card, in pixels.
pub open spec fn height_of(panel: Panel) -> u32 {
    match panel {
        Panel::Spectrum | Panel::Spectrogram => 310,
        Panel::Chroma | Panel::Scope => 230,
        Panel::History | Panel::Waveform | Panel::Visibility => 180,
    }
}

/// Cards side by side, and how high they are.
pub struct Row {
    pub panels: Vec<Panel>,
    pub height: u32,
}

/// All cards, in order.
pub open spec fn all_panels() -> Seq<Panel> {
    seq![
        Panel::Spectrum,
        Panel::Spectrogram,
        Panel::Chroma,
        Panel::Scope,
        Panel::History,
        Panel::Waveform,
        Panel::Visibility,
    ]
}

/// The cards where there are no phones, in order.
pub open spec fn panels_without_phones() -> Seq<Panel> {
    seq![
        Panel::Spectrum,
        Panel::Spectrogram,
        Panel::Chroma,
        Panel::History,
        Panel::Waveform,
        Panel::Visibility,
    ]
}

/// How many cards stand above each row, and above the end: on a narrow screen every row
/// has one, else two rows have two and the last has three.
pub open spec fn row_starts(narrow: bool) -> Seq<usize> {
    if narrow {
        seq![0, 1, 2, 3, 4, 5, 6, 7]
    } else {
        seq![0, 2, 4, 7]
    }
}

/// The same where there are no phones: the second row has one card.
pub open spec fn row_starts_without_phones(narrow: bool) -> Seq<usize> {
    if narrow {
        seq![0, 1, 2, 3, 4, 5, 6]
    } else {
        seq![0, 2, 3, 6]
    }
}

/// The rows take the cards in order, each from its start to that of the next, and are as
/// high as their cards.
pub open spec fn laid_out(panels: Seq<Panel>, starts: Seq<usize>, rows: Seq<Row>) -> bool {
    &&& rows.len() == starts.len() - 1
    &&& forall|r: int|
        0 <= r < rows.len() ==> {
            let row = #[trigger] rows[r];
            &&& row.panels@ == panels.subrange(starts[r] as int, starts[r + 1] as int)
            &&& forall|k: int| 0 <= k < row.panels.len() ==> height_of(#[trigger] row.panels[k]) == row.height
        }
}

/// The cards of the first `n` rows, row by row.
pub open spec fn shown(rows: Seq<Row>, n: int) -> Seq<Panel>
    decreases n,
{
    if n <= 0 {
        Seq::empty()
    } else {
        shown(rows, n - 1) + rows[n - 1].panels@
    }
}

/// Every row has a card, and the cards of a row are equally high.
pub open spec fn fits(panels: Seq<Panel>, starts: Seq<usize>) -> bool {
    &&& starts.len() > 0
    &&& starts[0] == 0
    &&& starts.last() == panels.len()
    &&& forall|r: int| 0 <= r < starts.len() - 1 ==> (#[trigger] starts[r]) < starts[r + 1] <= panels.len()
    &&& forall|r: int, k: int|
        #![trigger starts[r], panels[k]]
        0 <= r < starts.len() - 1 && starts[r] <= k < starts[r + 1] ==> height_of(panels[k]) == height_of(
            panels[starts[r] as int],
        )
}

/// The height of a card, in pixels.
fn height(panel: Panel) -> (h: u32)
    ensures
        h == height_of(panel),
{
    match panel {
        Panel::Spectrum | Panel::Spectrogram => 310,
        Panel::Chroma | Panel::Scope => 230,
        Panel::History | Panel::Waveform | Panel::Visibility => 180,
    }
}

/// Lays the cards out in rows.
fn lay_out(panels: &Vec<Panel>, starts: &Vec<usize>) -> (rows: Vec<Row>)
    requires
        fits(panels@, starts@),
    ensures
        laid_out(panels@, starts@, rows@),
{
    let mut rows: Vec<Row> = Vec::new();
    let mut r: usize = 0;
    while r < starts.len() - 1
        invariant
            r <= starts.len() - 1,
            fits(panels@, starts@),
            rows.len() == r,
            forall|q: int|
                0 <= q < r ==> {
                    let row = #[trigger] rows[q];
                    &&& row.panels@ == panels@.subrange(starts[q] as int, starts[q + 1] as int)
                    &&& forall|k: int| 0 <= k < row.panels.len() ==> height_of(#[trigger] row.panels[k]) == row.height
                },
        decreases starts.len() - r,
    {
        assert(starts@[r as int] < starts@[r + 1] <= panels.len());
        let from: usize = starts[r];
        let count: usize = starts[r + 1] - from;
        let line: Vec<Panel> = section(panels, from, count);
        let tall: u32 = height(panels[from]);
        assert(line@ =~= panels@.subrange(starts[r as int] as int, starts[r + 1] as int));
        assert forall|k: int| 0 <= k < line.len() implies height_of(#[trigger] line[k]) == tall by {
            assert(line[k] == panels@[starts@[r as int] + k]);
        }
        rows.push(Row { panels: line, height: tall });
        r = r + 1;
    }
    rows
}

/// Where the cards stand: on narrow screens every card has a row of its own.
pub fn dashboard(narrow: bool) -> (rows: Vec<Row>)
    ensures
        laid_out(all_panels(), row_starts(narrow), rows@),
{
    let panels: Vec<Panel> = vec![
        Panel::Spectrum,
        Panel::Spectrogram,
        Panel::Chroma,
        Panel::Scope,
        Panel::History,
        Panel::Waveform,
        Panel::Visibility,
    ];
    let starts: Vec<usize> = if narrow { vec![0, 1, 2, 3, 4, 5, 6, 7] } else { vec![0, 2, 4, 7] };
    assert(panels@ =~= all_panels());
    assert(starts@ =~= row_starts(narrow));
    lay_out(&panels, &starts)
}

/// Where the cards stand when there are no phones, as in a browser: there is no scope,
/// and the pitch classes have its place as well.
pub fn dashboard_without_phones(narrow: bool) -> (rows: Vec<Row>)
    ensures
        laid_out(panels_without_phones(), row_starts_without_phones(narrow), rows@),
{
    let panels: Vec<Panel> = vec![
        Panel::Spectrum,
        Panel::Spectrogram,
        Panel::Chroma,
        Panel::History,
        Panel::Waveform,
        Panel::Visibility,
    ];
    let starts: Vec<usize> = if narrow { vec![0, 1, 2, 3, 4, 5, 6] } else { vec![0, 2, 3, 6] };
    assert(panels@ =~= panels_without_phones());
    assert(starts@ =~= row_starts_without_phones(narrow));
    lay_out(&panels, &starts)
}

proof fn rows_show_all(panels: Seq<Panel>, starts: Seq<usize>, rows: Seq<Row>, n: int)
    requires
        fits(panels, starts),
        laid_out(panels, starts, rows),
        0 <= n <= rows.len(),
    ensures
        starts[n] <= panels.len(),
        shown(rows, n) == panels.take(starts[n] as int),
    decreases n,
{
    if n > 0 {
        rows_show_all(panels, starts, rows, n - 1);
        assert(starts[n - 1] < starts[n - 1 + 1] <= panels.len());
        let row = rows[n - 1];
        assert(row.panels@ == panels.subrange(starts[n - 1] as int, starts[n] as int));
        assert(shown(rows, n) =~= panels.take(starts[n] as int));
    } else {
        assert(shown(rows, n) =~= panels.take(0));
    }
}

/// On a screen of any width every card is shown exactly once, in order.
pub proof fn every_card_is_shown_once(narrow: bool, rows: Seq<Row>, panel: Panel)
    requires
        laid_out(all_panels(), row_starts(narrow), rows),
    ensures
        shown(rows, rows.len() as int) == all_panels(),
        all_panels().no_duplicates(),
        all_panels().contains(panel),
{
    let all = all_panels();
    rows_show_all(all, row_starts(narrow), rows, rows.len() as int);
    assert(all.take(all.len() as int) =~= all);
    assert(all[0] is Spectrum && all[1] is Spectrogram && all[2] is Chroma && all[3] is Scope);
    assert(all[4] is History && all[5] is Waveform && all[6] is Visibility);
}

/// Where there are no phones, on a screen of any width, every card but the scope is
/// shown exactly once, in order, and the scope is not.
pub proof fn every_card_but_the_scope_is_shown_once(narrow: bool, rows: Seq<Row>, panel: Panel)
    requires
        laid_out(panels_without_phones(), row_starts_without_phones(narrow), rows),
    ensures
        shown(rows, rows.len() as int) == panels_without_phones(),
        panels_without_phones().no_duplicates(),
        panels_without_phones().contains(panel) == (panel != Panel::Scope),
{
    let all = panels_without_phones();
    rows_show_all(all, row_starts_without_phones(narrow), rows, rows.len() as int);
    assert(all.take(all.len() as int) =~= all);
    assert(all[0] is Spectrum && all[1] is Spectrogram && all[2] is Chroma);
    assert(all[3] is History && all[4] is Waveform && all[5] is Visibility);
}

} // verus!
