//! From the entries below a directory to the renames that a rule asks for.

use crate::config::{text_of, Config};
use crate::decimal::{all_digits, decimal_value, parse_digits};
use crate::names::{
    ext_name, ext_target, number_name, number_target, space_name, space_target, NumberError,
};
use crate::text::{chars_of, is_ascii_digit, is_digit, same_text, trim, trimmed};
use vstd::prelude::*;

verus! {

/// The width that the number rule pads to where none is given, or none that
/// can be read.
pub const DEFAULT_WIDTH: usize = 2;

/// One thing found below the directory: its base name, and whether it is a
/// directory. The caller keeps the path; the plan speaks of an entry by its
/// index in the list.
#[derive(Clone, Debug, PartialEq, Eq)]
pub struct Entry {
    /// The last component of the path.
    pub name: String,
    /// Whether the entry is a directory.
    pub is_dir: bool,
}

/// A rule with its parameter read.
#[derive(Clone, Debug, PartialEq, Eq)]
pub enum Rule {
    /// Pad the number at the start of a name with zeros to `width` characters.
    Number { width: usize },
    /// Put `divider` where a name has whitespace.
    Space { divider: String },
    /// Put the extension in upper case if `upper`, else in lower case.
    Ext { upper: bool },
}

/// A rule as contracts see it.
pub enum RuleView {
    Number { width: nat },
    Space { divider: Seq<char> },
    Ext { upper: bool },
}

impl View for Rule {
    type V = RuleView;

    open spec fn view(&self) -> RuleView {
        match self {
            Rule::Number { width } => RuleView::Number { width: *width as nat },
            Rule::Space { divider } => RuleView::Space { divider: divider@ },
            Rule::Ext { upper } => RuleView::Ext { upper: *upper },
        }
    }
}

/// What a rule makes of one entry.
#[derive(Clone, Debug, PartialEq, Eq)]
pub enum Decision {
    /// The rule leaves the entry alone.
    Skip,
    /// The entry gets this name.
    Rename(String),
    /// The rule takes the entry up and cannot name it.
    Fault(NumberError),
}

/// A decision as contracts see it.
pub enum DecisionView {
    Skip,
    Rename(Seq<char>),
    Fault(NumberError),
}

impl View for Decision {
    type V = DecisionView;

    open spec fn view(&self) -> DecisionView {
        match self {
            Decision::Skip => DecisionView::Skip,
            Decision::Rename(new_name) => DecisionView::Rename(new_name@),
            Decision::Fault(error) => DecisionView::Fault(*error),
        }
    }
}

/// One rename: the entry at `index` gets the base name `new_name`, in the
/// directory where it is.
#[derive(Clone, Debug, PartialEq, Eq)]
pub struct Rename {
    /// The entry's index in the list that the plan was made from.
    pub index: usize,
    /// The entry's new base name.
    pub new_name: String,
}

/// A rename as contracts see it.
pub struct RenameView {
    pub index: int,
    pub new_name: Seq<char>,
}

impl View for Rename {
    type V = RenameView;

    open spec fn view(&self) -> RenameView {
        RenameView { index: self.index as int, new_name: self.new_name@ }
    }
}

/// The entry at which a plan ends early, and why.
#[derive(Clone, Copy, Debug, PartialEq, Eq, Structural)]
pub struct Fault {
    /// The entry's index in the list that the plan was made from.
    pub index: usize,
    /// Why the entry could not be named.
    pub error: NumberError,
}

/// The renames to carry out, in this order, and the fault that ends the
/// batch after them, if there is one.
#[derive(Clone, Debug, PartialEq, Eq)]
pub struct Plan {
    /// The renames, by rising index.
    pub renames: Vec<Rename>,
    /// The first entry that the rule could not name. No entry after it is
    /// looked at.
    pub fault: Option<Fault>,
}

/// A plan as contracts see it.
pub struct PlanView {
    pub renames: Seq<RenameView>,
    pub fault: Option<Fault>,
}

impl View for Plan {
    type V = PlanView;

    open spec fn view(&self) -> PlanView {
        PlanView { renames: self.renames@.map_values(|r: Rename| r@), fault: self.fault }
    }
}

/// Whether a base name marks a hidden entry: it starts with a dot.
pub open spec fn hidden(name: Seq<char>) -> bool {
    name.len() > 0 && name[0] == '.'
}

/// Whether a base name starts with a digit.
pub open spec fn numbered(name: Seq<char>) -> bool {
    name.len() > 0 && is_digit(name[0])
}

/// Whether `rule` takes `entry` up: never a directory, never a hidden entry,
/// and for the number rule only a name that starts with a digit.
pub open spec fn selects(rule: RuleView, entry: Entry) -> bool {
    &&& !entry.is_dir
    &&& !hidden(entry.name@)
    &&& rule is Number ==> numbered(entry.name@)
}

/// What `rule` makes of `entry`.
pub open spec fn decision(rule: RuleView, entry: Entry) -> DecisionView {
    if !selects(rule, entry) {
        DecisionView::Skip
    } else {
        match rule {
            RuleView::Number { width } => match number_target(entry.name@, width) {
                Ok(new_name) => DecisionView::Rename(new_name),
                Err(error) => DecisionView::Fault(error),
            },
            RuleView::Space { divider } => DecisionView::Rename(
                space_target(entry.name@, divider),
            ),
            RuleView::Ext { upper } => match ext_target(entry.name@, upper) {
                Some(new_name) => DecisionView::Rename(new_name),
                None => DecisionView::Skip,
            },
        }
    }
}

/// The index of the first entry at or after `from` that `rule` cannot name,
/// or the number of entries where there is none.
pub open spec fn first_fault(rule: RuleView, entries: Seq<Entry>, from: int) -> int
    decreases entries.len() - from,
{
    if 0 <= from < entries.len() && !(decision(rule, entries[from]) is Fault) {
        first_fault(rule, entries, from + 1)
    } else {
        from
    }
}

/// The renames that `rule` asks for among the first `n` entries.
pub open spec fn renames_before(rule: RuleView, entries: Seq<Entry>, n: int) -> Seq<RenameView>
    decreases n,
{
    if n <= 0 {
        Seq::empty()
    } else {
        let front = renames_before(rule, entries, n - 1);
        match decision(rule, entries[n - 1]) {
            DecisionView::Rename(new_name) => front.push(RenameView { index: n - 1, new_name }),
            _ => front,
        }
    }
}

/// The plan of `rule` for `entries`: the renames of the entries before the
/// first fault, and that fault.
pub open spec fn plan_for(rule: RuleView, entries: Seq<Entry>) -> PlanView {
    let stop = first_fault(rule, entries, 0);
    PlanView {
        renames: renames_before(rule, entries, stop),
        fault: if stop < entries.len() {
            Some(Fault { index: stop as usize, error: decision(rule, entries[stop])->Fault_0 })
        } else {
            None
        },
    }
}

/// The digits of an unsigned number: the text itself, less a plus sign in
/// front.
pub open spec fn unsigned_digits(s: Seq<char>) -> Seq<char> {
    if s.len() > 0 && s[0] == '+' {
        s.drop_first()
    } else {
        s
    }
}

/// The width that the number rule's parameter asks for: the parameter,
/// trimmed, read as an unsigned number that fits in `usize`; the default
/// where there is no parameter or it does not read so.
pub open spec fn width_of(params: Option<Seq<char>>) -> nat {
    match params {
        Some(p) => {
            let digits = unsigned_digits(trimmed(p));
            if digits.len() > 0 && all_digits(digits) && decimal_value(digits) <= usize::MAX {
                decimal_value(digits)
            } else {
                DEFAULT_WIDTH as nat
            }
        },
        None => DEFAULT_WIDTH as nat,
    }
}

/// The number rule with its parameter read.
pub open spec fn number_rule(params: Option<Seq<char>>) -> RuleView {
    RuleView::Number { width: width_of(params) }
}

/// The space rule with its parameter read: the parameter is the divider, and
/// the default divider is one underscore.
pub open spec fn space_rule(params: Option<Seq<char>>) -> RuleView {
    RuleView::Space {
        divider: match params {
            Some(p) => p,
            None => seq!['_'],
        },
    }
}

/// The extension rule with its parameter read: upper case for the parameter
/// `upper`, lower case for any other and for none.
pub open spec fn ext_rule(params: Option<Seq<char>>) -> RuleView {
    RuleView::Ext { upper: params == Some("upper"@) }
}

/// The rule that a command names, with its parameter read; `None` for a
/// command that names no rule.
pub open spec fn rule_for(cmd: Seq<char>, params: Option<Seq<char>>) -> Option<RuleView> {
    if cmd == "number"@ {
        Some(number_rule(params))
    } else if cmd == "space"@ {
        Some(space_rule(params))
    } else if cmd == "ext"@ {
        Some(ext_rule(params))
    } else {
        None
    }
}

/// No entry before the first fault is a fault, and the first fault is one.
pub proof fn lemma_first_fault(rule: RuleView, entries: Seq<Entry>, from: int)
    requires
        0 <= from <= entries.len(),
    ensures
        from <= first_fault(rule, entries, from) <= entries.len(),
        forall|i: int|
            from <= i < first_fault(rule, entries, from) ==> !(#[trigger] decision(
                rule,
                entries[i],
            ) is Fault),
        first_fault(rule, entries, from) < entries.len() ==> decision(
            rule,
            entries[first_fault(rule, entries, from)],
        ) is Fault,
    decreases entries.len() - from,
{
    if from < entries.len() && !(decision(rule, entries[from]) is Fault) {
        lemma_first_fault(rule, entries, from + 1);
    }
}

/// The first fault is determined by what `lemma_first_fault` says of it.
pub proof fn lemma_first_fault_is(rule: RuleView, entries: Seq<Entry>, from: int, at: int)
    requires
        0 <= from <= at <= entries.len(),
        forall|i: int| from <= i < at ==> !(#[trigger] decision(rule, entries[i]) is Fault),
        at < entries.len() ==> decision(rule, entries[at]) is Fault,
    ensures
        first_fault(rule, entries, from) == at,
    decreases at - from,
{
    if from < at {
        assert(!(decision(rule, entries[from]) is Fault));
        lemma_first_fault_is(rule, entries, from + 1, at);
    }
}

/// Tells whether `entry` is hidden: its name starts with a dot.
pub fn is_hidden(entry: &Entry) -> (r: bool)
    ensures
        r == hidden(entry.name@),
{
    let chars = chars_of(entry.name.as_str());
    chars.len() > 0 && chars[0] == '.'
}

/// Tells whether the name of `entry` starts with a digit.
pub fn starts_with_number(entry: &Entry) -> (r: bool)
    ensures
        r == numbered(entry.name@),
{
    let chars = chars_of(entry.name.as_str());
    chars.len() > 0 && is_ascii_digit(chars[0])
}

/// Reads the number rule's parameter.
pub fn parse_width(params: &Option<String>) -> (width: usize)
    ensures
        width == width_of(text_of(*params)),
{
    match params {
        None => DEFAULT_WIDTH,
        Some(p) => {
            let chars = chars_of(trim(p.as_str()));
            let n = chars.len();
            let from: usize = if n > 0 && chars[0] == '+' {
                1
            } else {
                0
            };
            proof {
                assert(unsigned_digits(chars@) == chars@.subrange(from as int, n as int));
            }
            if from == n {
                return DEFAULT_WIDTH;
            }
            match parse_digits(&chars, from, n, usize::MAX as u64) {
                Some(width) => width as usize,
                None => DEFAULT_WIDTH,
            }
        },
    }
}

impl Rule {
    /// The number rule, with `params` read as the width to pad to.
    pub fn number(params: &Option<String>) -> (rule: Rule)
        ensures
            rule@ == number_rule(text_of(*params)),
    {
        Rule::Number { width: parse_width(params) }
    }

    /// The space rule, with `params` as the divider; one underscore where
    /// there is none.
    pub fn space(params: &Option<String>) -> (rule: Rule)
        ensures
            rule@ == space_rule(text_of(*params)),
    {
        let divider = match params {
            Some(p) => p.clone(),
            None => {
                proof {
                    reveal_strlit("_");
                    assert("_"@ =~= seq!['_']);
                }
                String::from_str("_")
            },
        };
        Rule::Space { divider }
    }

    /// The extension rule: upper case where `params` is the word `upper`,
    /// else lower case.
    pub fn ext(params: &Option<String>) -> (rule: Rule)
        ensures
            rule@ == ext_rule(text_of(*params)),
    {
        let upper = match params {
            Some(p) => same_text(p.as_str(), "upper"),
            None => false,
        };
        Rule::Ext { upper }
    }

    /// The rule that the command `cmd` names, with `params` read as that rule
    /// reads it; `None` for a command that names no rule.
    pub fn for_command(cmd: &str, params: &Option<String>) -> (r: Option<Rule>)
        ensures
            match r {
                Some(rule) => rule_for(cmd@, text_of(*params)) == Some(rule@),
                None => rule_for(cmd@, text_of(*params)) is None,
            },
    {
        if same_text(cmd, "number") {
            Some(Rule::number(params))
        } else if same_text(cmd, "space") {
            Some(Rule::space(params))
        } else if same_text(cmd, "ext") {
            Some(Rule::ext(params))
        } else {
            None
        }
    }
}

/// What `rule` makes of `entry`.
pub fn decide(rule: &Rule, entry: &Entry) -> (r: Decision)
    ensures
        r@ == decision(rule@, *entry),
{
    if entry.is_dir || is_hidden(entry) {
        return Decision::Skip;
    }
    match rule {
        Rule::Number { width } => {
            if !starts_with_number(entry) {
                return Decision::Skip;
            }
            match number_name(entry.name.as_str(), *width) {
                Ok(new_name) => Decision::Rename(new_name),
                Err(error) => Decision::Fault(error),
            }
        },
        Rule::Space { divider } => Decision::Rename(
            space_name(entry.name.as_str(), divider.as_str()),
        ),
        Rule::Ext { upper } => match ext_name(entry.name.as_str(), *upper) {
            Some(new_name) => Decision::Rename(new_name),
            None => Decision::Skip,
        },
    }
}

/// The plan of `rule` for `entries`: for each entry that the rule takes up
/// and names, in the order of the list, its rename; the plan ends at the
/// first entry that the rule takes up and cannot name.
pub fn make_plan(rule: &Rule, entries: &Vec<Entry>) -> (plan: Plan)
    ensures
        plan@ == plan_for(rule@, entries@),
{
    let mut renames: Vec<Rename> = Vec::new();
    let mut i: usize = 0;
    while i < entries.len()
        invariant
            i <= entries.len(),
            forall|j: int| 0 <= j < i ==> !(#[trigger] decision(rule@, entries@[j]) is Fault),
            renames@.map_values(|r: Rename| r@) == renames_before(rule@, entries@, i as int),
        decreases entries.len() - i,
    {
        let ghost before = renames@.map_values(|r: Rename| r@);
        match decide(rule, &entries[i]) {
            Decision::Skip => {},
            Decision::Rename(new_name) => {
                let rename = Rename { index: i, new_name };
                renames.push(rename);
                assert(renames@.map_values(|r: Rename| r@) == before.push(rename@));
            },
            Decision::Fault(error) => {
                proof {
                    lemma_first_fault_is(rule@, entries@, 0, i as int);
                }
                return Plan { renames, fault: Some(Fault { index: i, error }) };
            },
        }
        i += 1;
    }
    proof {
        lemma_first_fault_is(rule@, entries@, 0, i as int);
    }
    Plan { renames, fault: None }
}

/// The plan of the number rule, with `params` as the width to pad to.
pub fn fix_number(entries: &Vec<Entry>, params: &Option<String>) -> (plan: Plan)
    ensures
        plan@ == plan_for(number_rule(text_of(*params)), entries@),
{
    make_plan(&Rule::number(params), entries)
}

/// The plan of the space rule, with `params` as the divider. It has no
/// fault: the space rule names every entry that it takes up.
pub fn fix_space(entries: &Vec<Entry>, params: &Option<String>) -> (plan: Plan)
    ensures
        plan@ == plan_for(space_rule(text_of(*params)), entries@),
        plan.fault is None,
{
    proof {
        lemma_no_fault(space_rule(text_of(*params)), entries@);
    }
    make_plan(&Rule::space(params), entries)
}

/// The plan of the extension rule: upper case where `params` is the word
/// `upper`, else lower case. It has no fault: the extension rule names every
/// entry that has an extension, and leaves the others alone.
pub fn fix_ext(entries: &Vec<Entry>, params: &Option<String>) -> (plan: Plan)
    ensures
        plan@ == plan_for(ext_rule(text_of(*params)), entries@),
        plan.fault is None,
{
    proof {
        lemma_no_fault(ext_rule(text_of(*params)), entries@);
    }
    make_plan(&Rule::ext(params), entries)
}

/// The plan that `config` asks for over `entries`, the entries found below
/// its directory. A command that names no rule is refused, whatever the
/// entries are. In a plan, no rename is of a directory or of a hidden entry.
pub fn run(config: Config, entries: &Vec<Entry>) -> (r: Result<Plan, &'static str>)
    ensures
        match r {
            Ok(plan) => {
                &&& rule_for(config.cmd@, text_of(config.params)) matches Some(rule)
                &&& plan@ == plan_for(rule, entries@)
                &&& forall|k: int|
                    0 <= k < plan.renames.len() ==> {
                        let entry = entries[(#[trigger] plan.renames[k]).index as int];
                        &&& plan.renames[k].index < entries.len()
                        &&& !entry.is_dir
                        &&& !hidden(entry.name@)
                    }
            },
            Err(message) => {
                &&& rule_for(config.cmd@, text_of(config.params)) is None
                &&& message@ == "Unknown CMD"@
            },
        },
{
    match Rule::for_command(config.cmd.as_str(), &config.params) {
        Some(rule) => {
            let plan = make_plan(&rule, entries);
            proof {
                lemma_plan(rule@, entries@);
                assert forall|k: int| 0 <= k < plan.renames.len() implies {
                    let entry = entries[(#[trigger] plan.renames[k]).index as int];
                    &&& plan.renames[k].index < entries.len()
                    &&& !entry.is_dir
                    &&& !hidden(entry.name@)
                } by {
                    assert(plan@.renames[k] == plan.renames[k]@);
                }
            }
            Ok(plan)
        },
        None => Err("Unknown CMD"),
    }
}

/// Only the number rule can fail to name an entry.
pub proof fn lemma_no_fault(rule: RuleView, entries: Seq<Entry>)
    requires
        !(rule is Number),
    ensures
        first_fault(rule, entries, 0) == entries.len(),
        plan_for(rule, entries).fault is None,
{
    lemma_first_fault_is(rule, entries, 0, entries.len() as int);
}

/// The renames among the first `n` entries, one for each entry that the rule
/// renames, by rising index.
pub proof fn lemma_renames_before(rule: RuleView, entries: Seq<Entry>, n: int)
    requires
        0 <= n <= entries.len(),
    ensures
        forall|k: int|
            0 <= k < renames_before(rule, entries, n).len() ==> {
                let r = #[trigger] renames_before(rule, entries, n)[k];
                &&& 0 <= r.index < n
                &&& decision(rule, entries[r.index]) == DecisionView::Rename(r.new_name)
            },
        forall|j: int, k: int|
            0 <= j < k < renames_before(rule, entries, n).len() ==> (#[trigger] renames_before(
                rule,
                entries,
                n,
            )[j]).index < (#[trigger] renames_before(rule, entries, n)[k]).index,
        forall|i: int|
            0 <= i < n && #[trigger] decision(rule, entries[i]) is Rename ==> exists|k: int|
                0 <= k < renames_before(rule, entries, n).len() && (#[trigger] renames_before(
                    rule,
                    entries,
                    n,
                )[k]).index == i,
    decreases n,
{
    if n > 0 {
        lemma_renames_before(rule, entries, n - 1);
        let front = renames_before(rule, entries, n - 1);
        let all = renames_before(rule, entries, n);
        assert forall|i: int| 0 <= i < n && #[trigger] decision(rule, entries[i]) is Rename implies exists|
            k: int,
        |
            0 <= k < all.len() && (#[trigger] all[k]).index == i by {
            if i < n - 1 {
                let k = choose|k: int| 0 <= k < front.len() && (#[trigger] front[k]).index == i;
                assert(all[k] == front[k]);
            } else {
                assert(all[all.len() - 1].index == i);
            }
        }
    }
}

/// What a plan holds. Each rename is of an entry before the fault, gives it
/// the name that the rule decides, and is of no directory and no hidden
/// entry; the renames come by rising index; and every entry before the fault
/// that the rule renames has its rename in the plan.
pub proof fn lemma_plan(rule: RuleView, entries: Seq<Entry>)
    ensures
        0 <= first_fault(rule, entries, 0) <= entries.len(),
        forall|k: int|
            0 <= k < plan_for(rule, entries).renames.len() ==> {
                let r = #[trigger] plan_for(rule, entries).renames[k];
                &&& 0 <= r.index < first_fault(rule, entries, 0)
                &&& decision(rule, entries[r.index]) == DecisionView::Rename(r.new_name)
                &&& selects(rule, entries[r.index])
                &&& !entries[r.index].is_dir
                &&& !hidden(entries[r.index].name@)
            },
        forall|j: int, k: int|
            0 <= j < k < plan_for(rule, entries).renames.len() ==> (#[trigger] plan_for(
                rule,
                entries,
            ).renames[j]).index < (#[trigger] plan_for(rule, entries).renames[k]).index,
        forall|i: int|
            0 <= i < first_fault(rule, entries, 0) && #[trigger] decision(rule, entries[i])
                is Rename ==> exists|k: int|
                0 <= k < plan_for(rule, entries).renames.len() && (#[trigger] plan_for(
                    rule,
                    entries,
                ).renames[k]).index == i,
{
    lemma_first_fault(rule, entries, 0);
    lemma_renames_before(rule, entries, first_fault(rule, entries, 0));
}

/// No rule renames a hidden entry: no rename of any plan is of an entry
/// whose name starts with a dot.
pub proof fn lemma_hidden_stays(rule: RuleView, entries: Seq<Entry>, i: int)
    requires
        0 <= i < entries.len(),
        hidden(entries[i].name@),
    ensures
        forall|k: int|
            0 <= k < plan_for(rule, entries).renames.len() ==> (#[trigger] plan_for(
                rule,
                entries,
            ).renames[k]).index != i,
{
    lemma_plan(rule, entries);
}

/// No rule renames a directory: no rename of any plan is of an entry that
/// is one.
pub proof fn lemma_directory_stays(rule: RuleView, entries: Seq<Entry>, i: int)
    requires
        0 <= i < entries.len(),
        entries[i].is_dir,
    ensures
        forall|k: int|
            0 <= k < plan_for(rule, entries).renames.len() ==> (#[trigger] plan_for(
                rule,
                entries,
            ).renames[k]).index != i,
{
    lemma_plan(rule, entries);
}

} // verus!
