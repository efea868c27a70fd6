//! What the user is told.

use vstd::prelude::*;
use crate::binary64;
use crate::binary64::Binary64;
use crate::card;
use crate::kernel::KernelStats;
use crate::mounts;
use crate::monitor::{CardParameters, PollReport};
use crate::render;
use crate::settings::SettingsError;
use crate::state::{PresetOutcome, State, StateModel};
use crate::text;
use crate::wear;

verus! {

/// A fraction in percent.
pub open spec fn percent(fraction: Binary64) -> Binary64 {
    fraction.product(Binary64 { bits: binary64::ONE_HUNDRED })
}

/// A text between two others.
fn between(before: &str, middle: &str, after: &str) -> (s: String)
    ensures
        s@ == before@ + middle@ + after@,
{
    let mut s = text::joined(before, middle);
    s.append(after);
    s
}

fn in_percent(fraction: Binary64, decimals: u32) -> (s: String)
    requires
        decimals <= 6,
    ensures
        s@ == render::fixed_text(percent(fraction), decimals as nat),
{
    render::fixed(fraction.times(Binary64 { bits: binary64::ONE_HUNDRED }), decimals)
}

impl PollReport {
    /// The report as a line of `key=value` pairs.
    pub open spec fn line_text(self) -> Seq<char> {
        "ios="@ + text::decimal(self.ios as nat) + " kb="@ + text::decimal(self.kb as nat)
            + " avg_kb="@ + render::fixed_text(self.avg_io_kb, 1) + " waf="@ + render::fixed_text(
            self.waf,
            2,
        ) + " seq="@ + render::fixed_text(self.sequential_ratio, 2) + " full="@
            + render::fixed_text(percent(self.fullness), 1) + "% pe="@ + render::fixed_text(
            self.avg_pe_cycles,
            6,
        ) + " life="@ + render::fixed_text(self.life_remaining_pct, 4) + "% yrs_left="@
            + wear::years_text(self.years_left)
    }

    /// Writes the report as a line of `key=value` pairs, which describes itself wherever it
    /// is read.
    pub fn line(&self) -> (s: String)
        ensures
            s@ == self.line_text(),
    {
        let mut s = "ios=".to_owned();
        s.append(text::decimal_string(self.ios).as_str());
        s.append(" kb=");
        s.append(text::decimal_string(self.kb).as_str());
        s.append(" avg_kb=");
        s.append(render::fixed(self.avg_io_kb, 1).as_str());
        s.append(" waf=");
        s.append(render::fixed(self.waf, 2).as_str());
        s.append(" seq=");
        s.append(render::fixed(self.sequential_ratio, 2).as_str());
        s.append(" full=");
        s.append(in_percent(self.fullness, 1).as_str());
        s.append("% pe=");
        s.append(render::fixed(self.avg_pe_cycles, 6).as_str());
        s.append(" life=");
        s.append(render::fixed(self.life_remaining_pct, 4).as_str());
        s.append("% yrs_left=");
        s.append(wear::format_years_left(self.years_left).as_str());
        s
    }
}

// ---------------------------------------------------------------------------
// At the start
// ---------------------------------------------------------------------------
/// What is said of a setting that is out of range.
pub open spec fn settings_text(error: SettingsError, value: Binary64) -> Seq<char> {
    match error {
        SettingsError::InitialHealth => "Error: --initial-health value "@ + render::fixed_text(
            value,
            2,
        ) + " is out of range. Must be between 0.0 and 100.0."@,
        SettingsError::OverProvision => "Error: --over-provision value "@ + render::fixed_text(
            value,
            3,
        ) + " is out of range. Must be between 0.0 and 0.5."@,
    }
}

/// Says that a setting is out of range; `value` is what the user gave for it.
pub fn settings_message(error: SettingsError, value: Binary64) -> (s: String)
    ensures
        s@ == settings_text(error, value),
{
    match error {
        SettingsError::InitialHealth => between(
            "Error: --initial-health value ",
            render::fixed(value, 2).as_str(),
            " is out of range. Must be between 0.0 and 100.0.",
        ),
        SettingsError::OverProvision => between(
            "Error: --over-provision value ",
            render::fixed(value, 3).as_str(),
            " is out of range. Must be between 0.0 and 0.5.",
        ),
    }
}

/// What is said of the erase block size, and of where it comes from.
pub open spec fn erase_block_text(override_kb: Option<u64>, detected: u64) -> Seq<char> {
    match override_kb {
        Some(kb) => "Erase block:  "@ + text::decimal(kb as nat) + " KB (user override)"@,
        None => "Erase block:  "@ + text::decimal(detected as nat / card::KB as nat)
            + " KB (auto-detected)"@,
    }
}

/// Tells the erase block size, and where it comes from: the user gives it in kilobytes, and
/// otherwise it was detected, in bytes.
pub fn erase_block_message(override_kb: Option<u64>, detected: u64) -> (s: String)
    ensures
        s@ == erase_block_text(override_kb, detected),
{
    match override_kb {
        Some(kb) => between(
            "Erase block:  ",
            text::decimal_string(kb).as_str(),
            " KB (user override)",
        ),
        None => between(
            "Erase block:  ",
            text::decimal_string(detected / card::KB).as_str(),
            " KB (auto-detected)",
        ),
    }
}

/// What is said of a health that the user gives, if anything.
pub open spec fn preset_text(
    outcome: PresetOutcome,
    health: Binary64,
    state_file: Seq<char>,
) -> Option<Seq<char>> {
    match outcome {
        PresetOutcome::NotRequested => None,
        PresetOutcome::Applied => Some(
            "Initial health preset to "@ + render::fixed_text(health, 1)
                + "% (--initial-health applied to new state file)"@,
        ),
        PresetOutcome::Ignored => Some(
            "Note: --initial-health ignored because an existing state file was found at "@
                + state_file,
        ),
    }
}

/// Tells what became of a health that the user gives, if one was given.
pub fn preset_message(outcome: PresetOutcome, health: Binary64, state_file: &str) -> (r: Option<
    String,
>)
    ensures
        match r {
            Some(s) => preset_text(outcome, health, state_file@) == Some(s@),
            None => preset_text(outcome, health, state_file@) is None,
        },
{
    match outcome {
        PresetOutcome::NotRequested => None,
        PresetOutcome::Applied => Some(
            between(
                "Initial health preset to ",
                render::fixed(health, 1).as_str(),
                "% (--initial-health applied to new state file)",
            ),
        ),
        PresetOutcome::Ignored => Some(
            text::joined(
                "Note: --initial-health ignored because an existing state file was found at ",
                state_file,
            ),
        ),
    }
}

/// What is said of a reboot.
pub open spec fn reboot_text(current: KernelStats, stored: u64) -> Seq<char> {
    "Reboot detected (kernel sectors "@ + text::decimal(current.write_sectors as nat)
        + " < stored "@ + text::decimal(stored as nat) + "). Continuing cumulative tracking."@
}

/// Says that there was a reboot; `stored` is the sector counter before it.
pub fn reboot_message(current: &KernelStats, stored: u64) -> (s: String)
    ensures
        s@ == reboot_text(*current, stored),
{
    let mut s = between(
        "Reboot detected (kernel sectors ",
        text::decimal_string(current.write_sectors).as_str(),
        " < stored ",
    );
    s.append(text::decimal_string(stored).as_str());
    s.append("). Continuing cumulative tracking.");
    s
}

/// The lines on where the file systems are mounted.
pub open spec fn mount_lines(mounts: Seq<(Seq<char>, Seq<char>)>) -> Seq<Seq<char>> {
    if mounts.len() == 0 {
        seq!["Mount points:  none detected"@]
    } else {
        Seq::new(mounts.len(), |i: int| "Mount point:   "@ + mounts[i].0 + " → "@ + mounts[i].1)
    }
}

/// The lines with which a session begins: what the card is, what the estimates rest on, and
/// how worn the card is.
pub open spec fn summary_lines(
    state: StateModel,
    parameters: CardParameters,
    state_file: Seq<char>,
    save_interval: u64,
    mounts: Seq<(Seq<char>, Seq<char>)>,
) -> Seq<Seq<char>> {
    let rule = "─────────────────────────────────────────────────────────────"@;
    seq![
        "sdwear — SD Card Flash Wear Estimator"@,
        "Device:        /dev/"@ + state.device,
        "Card size:     "@ + render::fixed_text(card::gigabytes(parameters.card_bytes), 1)
            + " GB (auto-detected)"@,
        "Erase block:   "@ + text::decimal(state.erase_block_kb as nat) + " KB"@,
        "Flash page:    "@ + text::decimal(parameters.flash_page_size as nat) + " bytes"@,
        "Over-prov:     "@ + render::fixed_text(percent(parameters.over_provision), 0) + "%"@,
        "Rated P/E:     "@ + text::decimal(parameters.pe_cycles as nat) + " cycles"@,
        "State file:    "@ + state_file,
        "Save interval: "@ + text::decimal(save_interval as nat) + " seconds"@,
    ] + mount_lines(mounts) + seq![
        "Lifetime budget: "@ + render::fixed_text(
            card::lifetime_budget(parameters.card_bytes, parameters.pe_cycles),
            1,
        ) + " TB total flash writes"@,
        rule,
        "Restored state: "@ + render::fixed_text(state.estimated_avg_pe_cycles, 6)
            + " avg P/E cycles, "@ + render::fixed_text(state.estimated_life_remaining_pct, 4)
            + "% life remaining"@,
        rule,
    ]
}

fn mount_messages(mounts: &Vec<(String, String)>) -> (r: Vec<String>)
    ensures
        text::strings(r@) == mount_lines(mounts::pairs(mounts@)),
{
    let mut r: Vec<String> = Vec::new();
    if mounts.len() == 0 {
        r.push("Mount points:  none detected".to_owned());
        assert(text::strings(r@) =~= mount_lines(mounts::pairs(mounts@)));
        return r;
    }
    for i in 0..mounts.len()
        invariant
            r.len() == i,
            forall|k: int|
                0 <= k < i ==> (#[trigger] r@[k])@ == "Mount point:   "@ + mounts@[k].0@ + " → "@
                    + mounts@[k].1@,
    {
        let mut s = between("Mount point:   ", mounts[i].0.as_str(), " → ");
        s.append(mounts[i].1.as_str());
        r.push(s);
    }
    assert(text::strings(r@) =~= mount_lines(mounts::pairs(mounts@)));
    r
}

/// Writes the lines with which a session begins.
pub fn summary(
    state: &State,
    parameters: &CardParameters,
    state_file: &str,
    save_interval: u64,
    mounts: &Vec<(String, String)>,
) -> (r: Vec<String>)
    ensures
        text::strings(r@) == summary_lines(
            state@,
            *parameters,
            state_file@,
            save_interval,
            mounts::pairs(mounts@),
        ),
{
    let rule = "─────────────────────────────────────────────────────────────";
    let mut r: Vec<String> = Vec::new();
    r.push("sdwear — SD Card Flash Wear Estimator".to_owned());
    r.push(text::joined("Device:        /dev/", state.device.as_str()));
    r.push(
        between(
            "Card size:     ",
            render::fixed(card::card_gb(parameters.card_bytes), 1).as_str(),
            " GB (auto-detected)",
        ),
    );
    r.push(
        between("Erase block:   ", text::decimal_string(state.erase_block_kb).as_str(), " KB"),
    );
    r.push(
        between(
            "Flash page:    ",
            text::decimal_string(parameters.flash_page_size).as_str(),
            " bytes",
        ),
    );
    r.push(between("Over-prov:     ", in_percent(parameters.over_provision, 0).as_str(), "%"));
    r.push(
        between("Rated P/E:     ", text::decimal_string(parameters.pe_cycles).as_str(), " cycles"),
    );
    r.push(text::joined("State file:    ", state_file));
    r.push(between("Save interval: ", text::decimal_string(save_interval).as_str(), " seconds"));
    let mut mount_list = mount_messages(mounts);
    r.append(&mut mount_list);
    r.push(
        between(
            "Lifetime budget: ",
            render::fixed(
                card::lifetime_budget_tb(parameters.card_bytes, parameters.pe_cycles),
                1,
            ).as_str(),
            " TB total flash writes",
        ),
    );
    r.push(rule.to_owned());
    let mut restored = between(
        "Restored state: ",
        render::fixed(state.estimated_avg_pe_cycles, 6).as_str(),
        " avg P/E cycles, ",
    );
    restored.append(render::fixed(state.estimated_life_remaining_pct, 4).as_str());
    restored.append("% life remaining");
    r.push(restored);
    r.push(rule.to_owned());
    assert(text::strings(r@) =~= summary_lines(
        state@,
        *parameters,
        state_file@,
        save_interval,
        mounts::pairs(mounts@),
    ));
    r
}

// ---------------------------------------------------------------------------
// Laws
// ---------------------------------------------------------------------------
proof fn lemma_joined_word(a: Seq<char>, b: Seq<char>)
    requires
        text::no_space(a),
        text::no_space(b),
    ensures
        text::no_space(a + b),
{
    let s = a + b;
    assert forall|i: int| 0 <= i < s.len() implies !text::is_space(#[trigger] s[i]) by {
        if i < a.len() {
            assert(s[i] == a[i]);
        } else {
            assert(s[i] == b[i - a.len()]);
        }
    }
}

/// One more key with its figure, behind a text and a space, is one more word.
proof fn lemma_one_more_word(
    line: Seq<char>,
    spaced: Seq<char>,
    key: Seq<char>,
    figure: Seq<char>,
    tail: Seq<char>,
)
    requires
        spaced == seq![' '] + key,
        key.len() > 0,
        text::no_space(key),
        text::no_space(figure),
        text::no_space(tail),
    ensures
        text::words(line + spaced + figure + tail) == text::words(line).push(
            key + figure + tail,
        ),
{
    let word = key + figure + tail;
    lemma_joined_word(key, figure);
    lemma_joined_word(key + figure, tail);
    text::law_space_separates_words(line, ' ', word);
    text::law_run_is_one_word(word);
    assert(line + spaced + figure + tail =~= line + seq![' '] + word);
    assert(text::words(line) + seq![word] =~= text::words(line).push(word));
}

/// The keys of a line, with the space in front of them, and none in them.
proof fn lemma_keys()
    ensures
        "ios="@.len() > 0 && text::no_space("ios="@),
        " kb="@ == seq![' '] + "kb="@ && "kb="@.len() > 0 && text::no_space("kb="@),
        " avg_kb="@ == seq![' '] + "avg_kb="@ && "avg_kb="@.len() > 0 && text::no_space(
            "avg_kb="@,
        ),
        " waf="@ == seq![' '] + "waf="@ && "waf="@.len() > 0 && text::no_space("waf="@),
        " seq="@ == seq![' '] + "seq="@ && "seq="@.len() > 0 && text::no_space("seq="@),
        " full="@ == seq![' '] + "full="@ && "full="@.len() > 0 && text::no_space("full="@),
        " life="@ == seq![' '] + "life="@ && "life="@.len() > 0 && text::no_space("life="@),
        "% pe="@ == "%"@ + (seq![' '] + "pe="@) && "pe="@.len() > 0 && text::no_space("pe="@),
        "% yrs_left="@ == "%"@ + (seq![' '] + "yrs_left="@) && "yrs_left="@.len() > 0
            && text::no_space("yrs_left="@),
        text::no_space("%"@),
{
    reveal_strlit("ios=");
    reveal_strlit(" kb=");
    reveal_strlit("kb=");
    reveal_strlit(" avg_kb=");
    reveal_strlit("avg_kb=");
    reveal_strlit(" waf=");
    reveal_strlit("waf=");
    reveal_strlit(" seq=");
    reveal_strlit("seq=");
    reveal_strlit(" full=");
    reveal_strlit("full=");
    reveal_strlit("% pe=");
    reveal_strlit("pe=");
    reveal_strlit(" life=");
    reveal_strlit("life=");
    reveal_strlit("% yrs_left=");
    reveal_strlit("yrs_left=");
    reveal_strlit("%");
    assert(" kb="@ =~= seq![' '] + "kb="@);
    assert(" avg_kb="@ =~= seq![' '] + "avg_kb="@);
    assert(" waf="@ =~= seq![' '] + "waf="@);
    assert(" seq="@ =~= seq![' '] + "seq="@);
    assert(" full="@ =~= seq![' '] + "full="@);
    assert(" life="@ =~= seq![' '] + "life="@);
    assert("% pe="@ =~= "%"@ + (seq![' '] + "pe="@));
    assert("% yrs_left="@ =~= "%"@ + (seq![' '] + "yrs_left="@));
}

/// How three texts are joined makes no difference.
proof fn lemma_regrouped(a: Seq<char>, b: Seq<char>, c: Seq<char>)
    ensures
        a + (b + c) == a + b + c,
        a + b + Seq::<char>::empty() == a + b,
        a + Seq::<char>::empty() == a,
{
    assert(a + (b + c) =~= a + b + c);
    assert(a + b + Seq::<char>::empty() =~= a + b);
    assert(a + Seq::<char>::empty() =~= a);
}

proof fn lemma_years_are_one_word(years: Option<Binary64>)
    ensures
        text::no_space(wear::years_text(years)),
        wear::years_text(years).len() > 0,
{
    reveal_strlit(">100y");
    reveal_strlit("n/a");
    reveal_strlit("y");
    let s = wear::years_text(years);
    if let Some(y) = years {
        if !(Binary64 { bits: binary64::ONE_HUNDRED }).le(y) {
            render::law_written_number_is_one_word(y, 1);
            lemma_joined_word(render::fixed_text(y, 1), "y"@);
        }
    }
}

/// A line of a report has nine words, a key and a figure each, in a fixed order: no figure is
/// left out, and each is written in full.
pub proof fn law_line_has_every_figure(report: PollReport)
    ensures
        text::words(report.line_text()) == seq![
            "ios="@ + text::decimal(report.ios as nat),
            "kb="@ + text::decimal(report.kb as nat),
            "avg_kb="@ + render::fixed_text(report.avg_io_kb, 1),
            "waf="@ + render::fixed_text(report.waf, 2),
            "seq="@ + render::fixed_text(report.sequential_ratio, 2),
            "full="@ + render::fixed_text(
                report.fullness.product(Binary64 { bits: binary64::ONE_HUNDRED }),
                1,
            ) + "%"@,
            "pe="@ + render::fixed_text(report.avg_pe_cycles, 6),
            "life="@ + render::fixed_text(report.life_remaining_pct, 4) + "%"@,
            "yrs_left="@ + wear::years_text(report.years_left),
        ],
{
    let full = percent(report.fullness);
    let ios = text::decimal(report.ios as nat);
    let kb = text::decimal(report.kb as nat);
    let avg = render::fixed_text(report.avg_io_kb, 1);
    let waf = render::fixed_text(report.waf, 2);
    let share = render::fixed_text(report.sequential_ratio, 2);
    let fullness = render::fixed_text(full, 1);
    let cycles = render::fixed_text(report.avg_pe_cycles, 6);
    let life = render::fixed_text(report.life_remaining_pct, 4);
    let years = wear::years_text(report.years_left);
    text::law_decimal_is_digits_without_zeros_in_front(report.ios);
    text::law_decimal_is_digits_without_zeros_in_front(report.kb);
    render::law_written_number_is_one_word(report.avg_io_kb, 1);
    render::law_written_number_is_one_word(report.waf, 2);
    render::law_written_number_is_one_word(report.sequential_ratio, 2);
    render::law_written_number_is_one_word(full, 1);
    render::law_written_number_is_one_word(report.avg_pe_cycles, 6);
    render::law_written_number_is_one_word(report.life_remaining_pct, 4);
    lemma_years_are_one_word(report.years_left);
    lemma_line(ios, kb, avg, waf, share, fullness, cycles, life, years);
}

/// A line of such figures has nine words.
proof fn lemma_line(
    ios: Seq<char>,
    kb: Seq<char>,
    avg: Seq<char>,
    waf: Seq<char>,
    share: Seq<char>,
    fullness: Seq<char>,
    cycles: Seq<char>,
    life: Seq<char>,
    years: Seq<char>,
)
    requires
        text::no_space(ios),
        text::no_space(kb),
        text::no_space(avg),
        text::no_space(waf),
        text::no_space(share),
        text::no_space(fullness),
        text::no_space(cycles),
        text::no_space(life),
        text::no_space(years),
    ensures
        text::words(
            "ios="@ + ios + " kb="@ + kb + " avg_kb="@ + avg + " waf="@ + waf + " seq="@ + share
                + " full="@ + fullness + "% pe="@ + cycles + " life="@ + life + "% yrs_left="@
                + years,
        ) == seq![
            "ios="@ + ios,
            "kb="@ + kb,
            "avg_kb="@ + avg,
            "waf="@ + waf,
            "seq="@ + share,
            "full="@ + fullness + "%"@,
            "pe="@ + cycles,
            "life="@ + life + "%"@,
            "yrs_left="@ + years,
        ],
{
    let none = Seq::<char>::empty();
    lemma_keys();
    lemma_joined_word("ios="@, ios);
    let l1 = "ios="@ + ios;
    text::law_run_is_one_word(l1);
    let l2 = l1 + " kb="@ + kb;
    lemma_one_more_word(l1, " kb="@, "kb="@, kb, none);
    lemma_regrouped(l1 + " kb="@, kb, none);
    lemma_regrouped("kb="@, kb, none);
    let l3 = l2 + " avg_kb="@ + avg;
    lemma_one_more_word(l2, " avg_kb="@, "avg_kb="@, avg, none);
    lemma_regrouped(l2 + " avg_kb="@, avg, none);
    lemma_regrouped("avg_kb="@, avg, none);
    let l4 = l3 + " waf="@ + waf;
    lemma_one_more_word(l3, " waf="@, "waf="@, waf, none);
    lemma_regrouped(l3 + " waf="@, waf, none);
    lemma_regrouped("waf="@, waf, none);
    let l5 = l4 + " seq="@ + share;
    lemma_one_more_word(l4, " seq="@, "seq="@, share, none);
    lemma_regrouped(l4 + " seq="@, share, none);
    lemma_regrouped("seq="@, share, none);
    let l6 = l5 + " full="@ + fullness + "%"@;
    lemma_one_more_word(l5, " full="@, "full="@, fullness, "%"@);
    let pe = seq![' '] + "pe="@;
    let l7 = l6 + pe + cycles;
    lemma_one_more_word(l6, pe, "pe="@, cycles, none);
    lemma_regrouped(l6 + pe, cycles, none);
    lemma_regrouped("pe="@, cycles, none);
    lemma_regrouped(l5 + " full="@ + fullness, "%"@, pe);
    let l8 = l7 + " life="@ + life + "%"@;
    lemma_one_more_word(l7, " life="@, "life="@, life, "%"@);
    let yrs = seq![' '] + "yrs_left="@;
    let l9 = l8 + yrs + years;
    lemma_one_more_word(l8, yrs, "yrs_left="@, years, none);
    lemma_regrouped(l8 + yrs, years, none);
    lemma_regrouped("yrs_left="@, years, none);
    lemma_regrouped(l7 + " life="@ + life, "%"@, yrs);
    assert(text::words(l9) =~= seq![
        "ios="@ + ios,
        "kb="@ + kb,
        "avg_kb="@ + avg,
        "waf="@ + waf,
        "seq="@ + share,
        "full="@ + fullness + "%"@,
        "pe="@ + cycles,
        "life="@ + life + "%"@,
        "yrs_left="@ + years,
    ]);
}

/// What is said of a setting out of range tells the value and the range; of an erase block, its
/// size in kilobytes and where it is from; of a reboot, both counters.
pub proof fn law_messages_tell_their_figures(
    value: Binary64,
    kb: u64,
    detected: u64,
    current: KernelStats,
    stored: u64,
)
    ensures
        settings_text(SettingsError::InitialHealth, value) == "Error: --initial-health value "@
            + render::fixed_text(value, 2)
            + " is out of range. Must be between 0.0 and 100.0."@,
        settings_text(SettingsError::OverProvision, value) == "Error: --over-provision value "@
            + render::fixed_text(value, 3) + " is out of range. Must be between 0.0 and 0.5."@,
        erase_block_text(Some(kb), detected) == "Erase block:  "@ + text::decimal(kb as nat)
            + " KB (user override)"@,
        erase_block_text(None, detected) == "Erase block:  "@ + text::decimal(
            (detected / 1024) as nat,
        ) + " KB (auto-detected)"@,
        reboot_text(current, stored) == "Reboot detected (kernel sectors "@ + text::decimal(
            current.write_sectors as nat,
        ) + " < stored "@ + text::decimal(stored as nat) + "). Continuing cumulative tracking."@,
{
}

/// A health that the user gives is mentioned exactly if one was given, with its value where it
/// was applied and with the state file where it was not.
pub proof fn law_preset_is_told(health: Binary64, state_file: Seq<char>)
    ensures
        preset_text(PresetOutcome::NotRequested, health, state_file) is None,
        preset_text(PresetOutcome::Applied, health, state_file) == Some(
            "Initial health preset to "@ + render::fixed_text(health, 1)
                + "% (--initial-health applied to new state file)"@,
        ),
        preset_text(PresetOutcome::Ignored, health, state_file) == Some(
            "Note: --initial-health ignored because an existing state file was found at "@
                + state_file,
        ),
{
}

/// The summary tells the device, the size, the erase block, the page size, the share held back,
/// the rated cycles, the state file, the save interval, every mount or that there is none, the
/// budget, and the wear so far.
pub proof fn law_summary_tells_the_card_and_its_wear(
    state: StateModel,
    parameters: CardParameters,
    state_file: Seq<char>,
    save_interval: u64,
    mounts: Seq<(Seq<char>, Seq<char>)>,
    i: int,
)
    ensures
        ({
            let lines = summary_lines(state, parameters, state_file, save_interval, mounts);
            let n: int = if mounts.len() == 0 {
                1
            } else {
                mounts.len() as int
            };
            &&& lines.len() == 13 + n
            &&& lines[1] == "Device:        /dev/"@ + state.device
            &&& lines[2] == "Card size:     "@ + render::fixed_text(
                card::gigabytes(parameters.card_bytes),
                1,
            ) + " GB (auto-detected)"@
            &&& lines[3] == "Erase block:   "@ + text::decimal(state.erase_block_kb as nat)
                + " KB"@
            &&& lines[4] == "Flash page:    "@ + text::decimal(parameters.flash_page_size as nat)
                + " bytes"@
            &&& lines[5] == "Over-prov:     "@ + render::fixed_text(
                parameters.over_provision.product(Binary64 { bits: binary64::ONE_HUNDRED }),
                0,
            ) + "%"@
            &&& lines[6] == "Rated P/E:     "@ + text::decimal(parameters.pe_cycles as nat)
                + " cycles"@
            &&& lines[7] == "State file:    "@ + state_file
            &&& lines[8] == "Save interval: "@ + text::decimal(save_interval as nat)
                + " seconds"@
            &&& mounts.len() == 0 ==> lines[9] == "Mount points:  none detected"@
            &&& 0 <= i < mounts.len() ==> lines[9 + i] == "Mount point:   "@ + mounts[i].0
                + " → "@ + mounts[i].1
            &&& lines[9 + n] == "Lifetime budget: "@ + render::fixed_text(
                card::lifetime_budget(parameters.card_bytes, parameters.pe_cycles),
                1,
            ) + " TB total flash writes"@
            &&& lines[11 + n] == "Restored state: "@ + render::fixed_text(
                state.estimated_avg_pe_cycles,
                6,
            ) + " avg P/E cycles, "@ + render::fixed_text(state.estimated_life_remaining_pct, 4)
                + "% life remaining"@
        }),
{
}

} // verus!
