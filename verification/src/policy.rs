//! The policy compiler: from a spending policy to the Tapscript Miniscript
//! that satisfies it at the least expected cost.

use crate::error::{PolicyError, PolicyErrorView};
use core::str::FromStr;
use sapio_miniscript::policy::Concrete;
use sapio_miniscript::{Miniscript, Tap};
use vstd::prelude::*;
use vstd::string::StrSliceExecFns;
use vstd::utf8::is_ascii_chars;

verus! {

/// The parser's message for a text that is no policy; none for a policy.
pub uninterp spec fn policy_syntax_error(text: Seq<char>) -> Option<Seq<char>>;

/// The text of the Miniscript that a policy compiles to under Tapscript
/// rules, or the compiler's message where it has no valid compilation.
pub uninterp spec fn policy_compilation(text: Seq<char>) -> Result<Seq<char>, Seq<char>>;

/// What an optional text stands for.
pub open spec fn spec_optional_text(text: Option<String>) -> Option<Seq<char>> {
    match text {
        Some(message) => Some(message@),
        None => None,
    }
}

/// What a text or a message stands for.
pub open spec fn spec_text_result(outcome: Result<String, String>) -> Result<Seq<char>, Seq<char>> {
    match outcome {
        Ok(text) => Ok(text@),
        Err(message) => Err(message@),
    }
}

/// What the outcome of a compilation stands for.
pub open spec fn spec_compiled(outcome: Result<String, PolicyError>) -> Result<
    Seq<char>,
    PolicyErrorView,
> {
    match outcome {
        Ok(text) => Ok(text@),
        Err(error) => Err(error@),
    }
}

/// Odds at or above this value are no odds that a policy can carry.
pub const ODDS_CAP: u64 = 0x1_0000_0000;

/// A node that lies below more weighing than this many binary digits may
/// have a probability too small to tell from zero.
pub const WEIGHING_LIMIT: u64 = 1000;

/// The weighing of a node is counted no further than this.
pub const WEIGHING_CAP: u64 = 2000;

/// The kind of a node with arguments: 1 for `and`, 2 for `or`, 3 for
/// `thresh`, 0 for any other name.
pub const KIND_OTHER: u8 = 0;

pub const KIND_AND: u8 = 1;

pub const KIND_OR: u8 = 2;

pub const KIND_THRESH: u8 = 3;

/// One open bracket of a policy text, which stands for the node that the
/// bracket belongs to.
#[derive(Clone, Copy)]
pub struct OddsFrame {
    /// The kind of the node.
    pub kind: u8,
    /// How many of its arguments are complete; 2 stands for two or more.
    pub index: u8,
    /// The odds of its first argument.
    pub first: u64,
    /// The odds of its second argument.
    pub second: u64,
    /// Whether the node is, or lies below, a branch of a disjunction with
    /// odds of zero.
    pub zero: bool,
    /// How many unsatisfiable leaves lie below the node so far; 2 stands for
    /// two or more.
    pub unsat: u8,
    /// How many binary digits the probability of the node may have lost to
    /// the disjunctions and thresholds above it: 33 for each disjunction, 64
    /// for each threshold.
    pub bits: u64,
}

/// What a scan of a policy text knows after some of its characters.
///
/// A name is the run of characters from the start, an opening bracket or a
/// comma up to the next bracket or comma. Before an `@` a name holds odds,
/// after it the name proper.
pub struct ScanView {
    /// The brackets that are open, outermost first.
    pub stack: Seq<OddsFrame>,
    /// Whether the scan stands inside a name.
    pub in_name: bool,
    /// Whether the name so far holds decimal digits only.
    pub digits: bool,
    /// The number those digits write, capped at `ODDS_CAP`.
    pub value: u64,
    /// The odds of the name: 1 unless digits and an `@` gave others.
    pub odds: u64,
    /// The length of the name proper so far, capped at 255.
    pub pos: u8,
    /// Whether the name proper so far starts the word `or`.
    pub fits_or: bool,
    /// Whether the name proper so far starts the word `and`.
    pub fits_and: bool,
    /// Whether the name proper so far starts the word `thresh`.
    pub fits_thresh: bool,
    /// Whether the name proper so far starts the word `UNSATISFIABLE`.
    pub fits_unsat: bool,
    /// Whether a node closed that is out of range.
    pub bad: bool,
}

/// The word `or`.
pub open spec fn spec_word_or() -> Seq<u8> {
    seq![111u8, 114u8]
}

/// The word `and`.
pub open spec fn spec_word_and() -> Seq<u8> {
    seq![97u8, 110u8, 100u8]
}

/// The word `thresh`.
pub open spec fn spec_word_thresh() -> Seq<u8> {
    seq![116u8, 104u8, 114u8, 101u8, 115u8, 104u8]
}

/// The word `UNSATISFIABLE`, the name of the policy that nothing satisfies.
pub open spec fn spec_word_unsat() -> Seq<u8> {
    seq![85u8, 78u8, 83u8, 65u8, 84u8, 73u8, 83u8, 70u8, 73u8, 65u8, 66u8, 76u8, 69u8]
}

/// Whether a name that started a word still does with one more character.
pub open spec fn spec_fits(word: Seq<u8>, fits: bool, pos: u8, code: u8) -> bool {
    fits && pos < word.len() && word[pos as int] == code
}

/// The scan at the start of a name.
pub open spec fn spec_scan_fresh(stack: Seq<OddsFrame>, bad: bool) -> ScanView {
    ScanView {
        stack,
        in_name: true,
        digits: true,
        value: 0,
        odds: 1,
        pos: 0,
        fits_or: true,
        fits_and: true,
        fits_thresh: true,
        fits_unsat: true,
        bad,
    }
}

/// The scan before the first character.
pub open spec fn spec_scan_start() -> ScanView {
    spec_scan_fresh(Seq::empty(), false)
}

/// The kind of the node whose name ends at an opening bracket.
pub open spec fn spec_kind(scan: ScanView) -> u8 {
    if scan.in_name && scan.fits_or && scan.pos == 2 {
        KIND_OR
    } else if scan.in_name && scan.fits_and && scan.pos == 3 {
        KIND_AND
    } else if scan.in_name && scan.fits_thresh && scan.pos == 6 {
        KIND_THRESH
    } else {
        KIND_OTHER
    }
}

/// Whether the name that ends is an unsatisfiable leaf: the word
/// `UNSATISFIABLE`, as an argument of a conjunction, a disjunction or a
/// threshold.
pub open spec fn spec_unsat_leaf(scan: ScanView) -> bool {
    scan.in_name && scan.fits_unsat && scan.pos == 13 && scan.stack.len() > 0
        && scan.stack.last().kind != KIND_OTHER
}

/// A count of unsatisfiable leaves with some more, where 2 stands for two or
/// more.
pub open spec fn spec_more(count: u8, more: u8) -> u8 {
    if count + more >= 2 {
        2
    } else {
        (count + more) as u8
    }
}

/// The innermost open bracket once a name that ends is noted in it: its
/// odds as those of the first or the second argument, and the name itself
/// where it is an unsatisfiable leaf.
pub open spec fn spec_noted_top(scan: ScanView) -> OddsFrame
    recommends
        scan.stack.len() > 0,
{
    let top = scan.stack.last();
    if scan.in_name {
        OddsFrame {
            first: if top.index == 0 {
                scan.odds
            } else {
                top.first
            },
            second: if top.index == 1 {
                scan.odds
            } else {
                top.second
            },
            unsat: if spec_unsat_leaf(scan) {
                spec_more(top.unsat, 1)
            } else {
                top.unsat
            },
            ..top
        }
    } else {
        top
    }
}

/// The open brackets once a name that ends is noted in the innermost.
pub open spec fn spec_noted(scan: ScanView) -> Seq<OddsFrame> {
    if scan.stack.len() > 0 {
        scan.stack.update(scan.stack.len() - 1, spec_noted_top(scan))
    } else {
        scan.stack
    }
}

/// The bracket that opens after a name, below the innermost open bracket
/// `above`, if there is one.
pub open spec fn spec_opened(scan: ScanView, above: Option<OddsFrame>) -> OddsFrame {
    OddsFrame {
        kind: spec_kind(scan),
        index: 0,
        first: 1,
        second: 1,
        zero: match above {
            Some(top) => top.zero || (top.kind == KIND_OR && scan.in_name && scan.odds == 0),
            None => false,
        },
        unsat: 0,
        bits: match above {
            Some(top) => {
                let lost = if top.kind == KIND_OR {
                    33
                } else if top.kind == KIND_THRESH {
                    64
                } else {
                    0int
                };
                if top.bits + lost > WEIGHING_CAP {
                    WEIGHING_CAP
                } else {
                    (top.bits + lost) as u64
                }
            },
            None => 0,
        },
    }
}

/// Whether a node that closes is out of range: a disjunction whose odds sum
/// to zero or to more than the machine's word holds; or a node with two or
/// more unsatisfiable leaves below it whose probability is zero or may be
/// too small to tell from zero.
pub open spec fn spec_out_of_range(frame: OddsFrame) -> bool {
    ||| frame.kind == KIND_OR && (frame.first + frame.second == 0 || frame.first + frame.second
        > usize::MAX)
    ||| frame.unsat >= 2 && (frame.zero || frame.bits > WEIGHING_LIMIT)
}

/// The open brackets once the innermost has closed: it leaves, and the
/// unsatisfiable leaves below it count for the bracket around it.
pub open spec fn spec_closed(stack: Seq<OddsFrame>) -> Seq<OddsFrame>
    recommends
        stack.len() > 0,
{
    let rest = stack.drop_last();
    if rest.len() > 0 {
        rest.update(
            rest.len() - 1,
            OddsFrame { unsat: spec_more(rest.last().unsat, stack.last().unsat), ..rest.last() },
        )
    } else {
        rest
    }
}

/// The scan after an opening bracket, which ends a name and opens its
/// arguments.
pub open spec fn spec_step_open(scan: ScanView) -> ScanView {
    let noted = spec_noted(scan);
    let above = if noted.len() > 0 {
        Some(noted.last())
    } else {
        None
    };
    spec_scan_fresh(noted.push(spec_opened(scan, above)), scan.bad)
}

/// The open brackets once the innermost has one more complete argument.
pub open spec fn spec_advanced(stack: Seq<OddsFrame>) -> Seq<OddsFrame> {
    if stack.len() > 0 {
        let top = stack.last();
        stack.update(
            stack.len() - 1,
            OddsFrame {
                index: if top.index < 2 {
                    (top.index + 1) as u8
                } else {
                    2u8
                },
                ..top
            },
        )
    } else {
        stack
    }
}

/// The scan after a comma, which ends an argument.
pub open spec fn spec_step_comma(scan: ScanView) -> ScanView {
    spec_scan_fresh(spec_advanced(spec_noted(scan)), scan.bad)
}

/// The scan after a closing bracket, which ends the last argument and the
/// node.
pub open spec fn spec_step_close(scan: ScanView) -> ScanView {
    let noted = spec_noted(scan);
    if noted.len() > 0 {
        ScanView {
            stack: spec_closed(noted),
            in_name: false,
            bad: scan.bad || spec_out_of_range(noted.last()),
            ..scan
        }
    } else {
        ScanView { in_name: false, ..scan }
    }
}

/// The scan after an `@` in a name, which ends the odds and starts the name
/// proper.
pub open spec fn spec_step_at(scan: ScanView) -> ScanView {
    ScanView {
        digits: false,
        odds: if scan.digits {
            scan.value
        } else {
            scan.odds
        },
        pos: 0,
        fits_or: true,
        fits_and: true,
        fits_thresh: true,
        fits_unsat: true,
        ..scan
    }
}

/// The scan after any other character in a name.
pub open spec fn spec_step_letter(scan: ScanView, code: u8) -> ScanView {
    let digit = scan.digits && 48 <= code <= 57;
    ScanView {
        digits: digit,
        value: if digit {
            if scan.value * 10 + (code - 48) > ODDS_CAP {
                ODDS_CAP
            } else {
                (scan.value * 10 + (code - 48)) as u64
            }
        } else {
            scan.value
        },
        pos: if scan.pos < 255 {
            (scan.pos + 1) as u8
        } else {
            255
        },
        fits_or: spec_fits(spec_word_or(), scan.fits_or, scan.pos, code),
        fits_and: spec_fits(spec_word_and(), scan.fits_and, scan.pos, code),
        fits_thresh: spec_fits(spec_word_thresh(), scan.fits_thresh, scan.pos, code),
        fits_unsat: spec_fits(spec_word_unsat(), scan.fits_unsat, scan.pos, code),
        ..scan
    }
}

/// The scan after one more character, given by its code.
pub open spec fn spec_scan_step(scan: ScanView, code: u8) -> ScanView {
    if code == 40 {
        spec_step_open(scan)
    } else if code == 44 {
        spec_step_comma(scan)
    } else if code == 41 {
        spec_step_close(scan)
    } else if !scan.in_name {
        scan
    } else if code == 64 {
        spec_step_at(scan)
    } else {
        spec_step_letter(scan, code)
    }
}

/// The scan after all characters of a text.
pub open spec fn spec_scan(text: Seq<char>) -> ScanView
    decreases text.len(),
{
    if text.len() == 0 {
        spec_scan_start()
    } else {
        spec_scan_step(spec_scan(text.drop_last()), text.last() as u8)
    }
}

/// Whether a policy text is in the range that the compiler can weigh. It is
/// out of range where it is not ASCII, or where a node has closed that is
/// out of range: a disjunction whose odds sum to zero or to more than the
/// machine's word holds, or a node with two or more unsatisfiable leaves
/// below it that is, or lies below, a branch with odds of zero, or that lies
/// below so many disjunctions and thresholds that its probability may be too
/// small to tell from zero.
pub open spec fn spec_in_range(text: Seq<char>) -> bool {
    is_ascii_chars(text) && !spec_scan(text).bad
}

/// A scan of a policy text.
pub struct OddsScan {
    pub stack: Vec<OddsFrame>,
    pub in_name: bool,
    pub digits: bool,
    pub value: u64,
    pub odds: u64,
    pub pos: u8,
    pub fits_or: bool,
    pub fits_and: bool,
    pub fits_thresh: bool,
    pub fits_unsat: bool,
    pub bad: bool,
}

impl View for OddsScan {
    type V = ScanView;

    open spec fn view(&self) -> ScanView {
        ScanView {
            stack: self.stack@,
            in_name: self.in_name,
            digits: self.digits,
            value: self.value,
            odds: self.odds,
            pos: self.pos,
            fits_or: self.fits_or,
            fits_and: self.fits_and,
            fits_thresh: self.fits_thresh,
            fits_unsat: self.fits_unsat,
            bad: self.bad,
        }
    }
}

/// Whether `code` is the letter of `or` at a position.
fn letter_of_or(at: u8, code: u8) -> (same: bool)
    ensures
        same == (at < spec_word_or().len() && spec_word_or()[at as int] == code),
{
    (at == 0 && code == 111) || (at == 1 && code == 114)
}

/// Whether `code` is the letter of `and` at a position.
fn letter_of_and(at: u8, code: u8) -> (same: bool)
    ensures
        same == (at < spec_word_and().len() && spec_word_and()[at as int] == code),
{
    (at == 0 && code == 97) || (at == 1 && code == 110) || (at == 2 && code == 100)
}

/// Whether `code` is the letter of `thresh` at a position.
fn letter_of_thresh(at: u8, code: u8) -> (same: bool)
    ensures
        same == (at < spec_word_thresh().len() && spec_word_thresh()[at as int] == code),
{
    (at == 0 && code == 116) || (at == 1 && code == 104) || (at == 2 && code == 114) || (at == 3
        && code == 101) || (at == 4 && code == 115) || (at == 5 && code == 104)
}

/// Whether `code` is the letter of `UNSATISFIABLE` at a position.
fn letter_of_unsat(at: u8, code: u8) -> (same: bool)
    ensures
        same == (at < spec_word_unsat().len() && spec_word_unsat()[at as int] == code),
{
    let letter: u8 = match at {
        0 => 85,
        1 => 78,
        2 => 83,
        3 => 65,
        4 => 84,
        5 => 73,
        6 => 83,
        7 => 70,
        8 => 73,
        9 => 65,
        10 => 66,
        11 => 76,
        12 => 69,
        _ => 0,
    };
    at < 13 && letter == code
}

/// A count of unsatisfiable leaves with some more.
fn more(count: u8, added: u8) -> (sum: u8)
    ensures
        sum == spec_more(count, added),
{
    if count >= 2 || added >= 2 || count + added >= 2 {
        2
    } else {
        count + added
    }
}

impl OddsScan {
    /// The scan before the first character.
    pub fn new() -> (scan: OddsScan)
        ensures
            scan@ == spec_scan_start(),
    {
        OddsScan {
            stack: Vec::new(),
            in_name: true,
            digits: true,
            value: 0,
            odds: 1,
            pos: 0,
            fits_or: true,
            fits_and: true,
            fits_thresh: true,
            fits_unsat: true,
            bad: false,
        }
    }

    /// Notes a name that ends in the innermost open bracket.
    fn note(&mut self)
        ensures
            final(self)@ == (ScanView { stack: spec_noted(old(self)@), ..old(self)@ }),
    {
        if self.stack.len() > 0 {
            let last = self.stack.len() - 1;
            let top = self.stack[last];
            if self.in_name {
                let leaf = self.fits_unsat && self.pos == 13 && top.kind != KIND_OTHER;
                let noted = OddsFrame {
                    first: if top.index == 0 {
                        self.odds
                    } else {
                        top.first
                    },
                    second: if top.index == 1 {
                        self.odds
                    } else {
                        top.second
                    },
                    unsat: if leaf {
                        more(top.unsat, 1)
                    } else {
                        top.unsat
                    },
                    ..top
                };
                self.stack.set(last, noted);
            } else {
                assert(self.stack@ =~= spec_noted(old(self)@));
            }
        }
    }

    /// The bracket that opens after the name that ends.
    fn opened(&self) -> (frame: OddsFrame)
        ensures
            frame == spec_opened(
                self@,
                if self@.stack.len() > 0 {
                    Some(self@.stack.last())
                } else {
                    None
                },
            ),
    {
        let kind: u8 = if self.in_name && self.fits_or && self.pos == 2 {
            KIND_OR
        } else if self.in_name && self.fits_and && self.pos == 3 {
            KIND_AND
        } else if self.in_name && self.fits_thresh && self.pos == 6 {
            KIND_THRESH
        } else {
            KIND_OTHER
        };
        let mut zero = false;
        let mut bits: u64 = 0;
        if self.stack.len() > 0 {
            let top = self.stack[self.stack.len() - 1];
            zero = top.zero || (top.kind == KIND_OR && self.in_name && self.odds == 0);
            let lost: u128 = if top.kind == KIND_OR {
                33
            } else if top.kind == KIND_THRESH {
                64
            } else {
                0
            };
            let sum: u128 = top.bits as u128 + lost;
            bits = if sum > WEIGHING_CAP as u128 {
                WEIGHING_CAP
            } else {
                sum as u64
            };
        }
        OddsFrame { kind, index: 0, first: 1, second: 1, zero, unsat: 0, bits }
    }

    /// Starts a name.
    fn fresh(&mut self)
        ensures
            final(self)@ == spec_scan_fresh(old(self)@.stack, old(self)@.bad),
    {
        self.in_name = true;
        self.digits = true;
        self.value = 0;
        self.odds = 1;
        self.pos = 0;
        self.fits_or = true;
        self.fits_and = true;
        self.fits_thresh = true;
        self.fits_unsat = true;
    }

    /// Takes an opening bracket.
    fn open(&mut self)
        ensures
            final(self)@ == spec_step_open(old(self)@),
    {
        let ghost before = self@;
        self.note();
        let frame = self.opened();
        assert(frame == spec_opened(
            before,
            if spec_noted(before).len() > 0 {
                Some(spec_noted(before).last())
            } else {
                None
            },
        ));
        self.stack.push(frame);
        self.fresh();
    }

    /// Takes a comma.
    fn comma(&mut self)
        ensures
            final(self)@ == spec_step_comma(old(self)@),
    {
        self.note();
        if self.stack.len() > 0 {
            let last = self.stack.len() - 1;
            let top = self.stack[last];
            let index: u8 = if top.index < 2 {
                top.index + 1
            } else {
                2
            };
            self.stack.set(last, OddsFrame { index, ..top });
        }
        self.fresh();
    }

    /// Takes the innermost open bracket away and counts its unsatisfiable
    /// leaves for the bracket around it.
    fn leave(&mut self) -> (top: OddsFrame)
        requires
            old(self)@.stack.len() > 0,
        ensures
            top == old(self)@.stack.last(),
            final(self)@ == (ScanView { stack: spec_closed(old(self)@.stack), ..old(self)@ }),
    {
        let top = self.stack[self.stack.len() - 1];
        self.stack.pop();
        if self.stack.len() > 0 {
            let last = self.stack.len() - 1;
            let rest = self.stack[last];
            self.stack.set(last, OddsFrame { unsat: more(rest.unsat, top.unsat), ..rest });
        }
        assert(self.stack@ =~= spec_closed(old(self)@.stack));
        top
    }

    /// Takes a closing bracket.
    fn close(&mut self)
        ensures
            final(self)@ == spec_step_close(old(self)@),
    {
        self.note();
        if self.stack.len() > 0 {
            let top = self.leave();
            let sum: u128 = top.first as u128 + top.second as u128;
            let odds_out = top.kind == KIND_OR && (sum == 0 || sum > usize::MAX as u128);
            let cost_out = top.unsat >= 2 && (top.zero || top.bits > WEIGHING_LIMIT);
            if odds_out || cost_out {
                self.bad = true;
            }
        }
        self.in_name = false;
    }

    /// Takes an `@` in a name.
    fn at(&mut self)
        ensures
            final(self)@ == spec_step_at(old(self)@),
    {
        if self.digits {
            self.odds = self.value;
        }
        self.digits = false;
        self.pos = 0;
        self.fits_or = true;
        self.fits_and = true;
        self.fits_thresh = true;
        self.fits_unsat = true;
    }

    /// Takes any other character in a name.
    fn letter(&mut self, code: u8)
        ensures
            final(self)@ == spec_step_letter(old(self)@, code),
    {
        if self.digits && 48 <= code && code <= 57 {
            let longer: u128 = self.value as u128 * 10 + (code - 48) as u128;
            self.value = if longer > ODDS_CAP as u128 {
                ODDS_CAP
            } else {
                longer as u64
            };
        } else {
            self.digits = false;
        }
        self.fits_or = self.fits_or && letter_of_or(self.pos, code);
        self.fits_and = self.fits_and && letter_of_and(self.pos, code);
        self.fits_thresh = self.fits_thresh && letter_of_thresh(self.pos, code);
        self.fits_unsat = self.fits_unsat && letter_of_unsat(self.pos, code);
        self.pos = if self.pos < 255 {
            self.pos + 1
        } else {
            255
        };
    }

    /// Takes one more character, given by its code.
    pub fn step(&mut self, code: u8)
        ensures
            final(self)@ == spec_scan_step(old(self)@, code),
    {
        if code == 40 {
            self.open();
        } else if code == 44 {
            self.comma();
        } else if code == 41 {
            self.close();
        } else if !self.in_name {
        } else if code == 64 {
            self.at();
        } else {
            self.letter(code);
        }
    }
}

/// Decides whether a policy text is in the range that the compiler can
/// weigh.
pub fn in_range(s: &str) -> (ok: bool)
    ensures
        ok == spec_in_range(s@),
{
    if !s.is_ascii() {
        return false;
    }
    let count = s.unicode_len();
    let mut scan = OddsScan::new();
    let mut at: usize = 0;
    assert(s@.take(0) =~= Seq::<char>::empty());
    while at < count
        invariant
            at <= count,
            count == s@.len(),
            s.is_ascii(),
            scan@ == spec_scan(s@.take(at as int)),
        decreases count - at,
    {
        let code = s.get_ascii(at);
        assert(s@.take(at as int + 1).drop_last() =~= s@.take(at as int));
        scan.step(code);
        at += 1;
    }
    assert(s@.take(at as int) =~= s@);
    !scan.bad
}

/// What holds of a scan as long as the text has shown neither odds nor the
/// letter `U`: nothing is out of range, all odds are 1, no node lies below a
/// branch with odds of zero, and no unsatisfiable leaf was seen.
pub open spec fn spec_plain(scan: ScanView) -> bool {
    &&& !scan.bad
    &&& scan.odds == 1
    &&& scan.pos >= 1 ==> !scan.fits_unsat
    &&& forall|k: int|
        0 <= k < scan.stack.len() ==> (#[trigger] scan.stack[k]).first == 1 && scan.stack[k].second
            == 1 && !scan.stack[k].zero && scan.stack[k].unsat == 0
}

proof fn lemma_plain_step(scan: ScanView, code: u8)
    requires
        spec_plain(scan),
        code != 64,
        code != 85,
    ensures
        spec_plain(spec_scan_step(scan, code)),
{
    let next = spec_scan_step(scan, code);
    let noted = spec_noted(scan);
    assert(!spec_unsat_leaf(scan));
    assert forall|k: int| 0 <= k < noted.len() implies (#[trigger] noted[k]).first == 1
        && noted[k].second == 1 && !noted[k].zero && noted[k].unsat == 0 by {
        if k < noted.len() - 1 {
            assert(noted[k] == scan.stack[k]);
        } else {
            assert(scan.stack[k].first == 1);
        }
    }
    if code == 40 {
        assert forall|k: int| 0 <= k < next.stack.len() implies (#[trigger] next.stack[k]).first
            == 1 && next.stack[k].second == 1 && !next.stack[k].zero && next.stack[k].unsat == 0 by {
            if k < noted.len() {
                assert(next.stack[k] == noted[k]);
            }
        }
    } else if code == 44 {
        assert forall|k: int| 0 <= k < next.stack.len() implies (#[trigger] next.stack[k]).first
            == 1 && next.stack[k].second == 1 && !next.stack[k].zero && next.stack[k].unsat == 0 by {
            assert(noted[k].first == 1);
        }
    } else if code == 41 {
        if noted.len() > 0 {
            let top = noted.last();
            assert(noted[noted.len() - 1].first == 1);
            assert(!spec_out_of_range(top));
            let rest = noted.drop_last();
            assert forall|k: int| 0 <= k < next.stack.len() implies (#[trigger] next.stack[k]).first
                == 1 && next.stack[k].second == 1 && !next.stack[k].zero && next.stack[k].unsat
                == 0 by {
                assert(rest[k] == noted[k]);
                assert(noted[k].first == 1);
            }
        }
    }
}

proof fn lemma_plain_scan(text: Seq<char>)
    requires
        forall|at: int| 0 <= at < text.len() ==> (#[trigger] text[at]) as u8 != 64 && text[at] as u8 != 85,
    ensures
        spec_plain(spec_scan(text)),
    decreases text.len(),
{
    if text.len() > 0 {
        let front = text.drop_last();
        assert(forall|at: int| 0 <= at < front.len() ==> front[at] == text[at]);
        lemma_plain_scan(front);
        lemma_plain_step(spec_scan(front), text.last() as u8);
    }
}

/// An ASCII text that holds neither an `@` nor the letter `U` is in range:
/// without odds every disjunction weighs its branches one to one, and
/// without that letter no leaf is named `UNSATISFIABLE`.
pub proof fn lemma_plain_text_in_range(text: Seq<char>)
    requires
        is_ascii_chars(text),
        forall|at: int| 0 <= at < text.len() ==> (#[trigger] text[at]) as u8 != 64 && text[at] as u8 != 85,
    ensures
        spec_in_range(text),
{
    lemma_plain_scan(text);
}

/// What holds of a scan as long as the text has shown no letter `U` and no
/// odds of zero: nothing is out of range, all odds are between 1 and the
/// cap, no node lies below a branch with odds of zero, and no unsatisfiable
/// leaf was seen. `nonzero` says that the last character was a digit from 1
/// to 9.
pub open spec fn spec_weighted(scan: ScanView, nonzero: bool) -> bool {
    &&& !scan.bad
    &&& 1 <= scan.odds <= ODDS_CAP
    &&& scan.value <= ODDS_CAP
    &&& scan.in_name && scan.digits && nonzero ==> scan.value >= 1
    &&& scan.pos >= 1 ==> !scan.fits_unsat
    &&& forall|k: int|
        0 <= k < scan.stack.len() ==> 1 <= (#[trigger] scan.stack[k]).first <= ODDS_CAP && 1
            <= scan.stack[k].second <= ODDS_CAP && !scan.stack[k].zero && scan.stack[k].unsat == 0
}

/// Whether a character is a digit from 1 to 9.
pub open spec fn spec_nonzero_digit(code: u8) -> bool {
    49 <= code <= 57
}

proof fn lemma_weighted_step(scan: ScanView, nonzero: bool, code: u8)
    requires
        spec_weighted(scan, nonzero),
        usize::MAX >= 2 * ODDS_CAP,
        code != 85,
        code == 64 ==> nonzero,
    ensures
        spec_weighted(spec_scan_step(scan, code), spec_nonzero_digit(code)),
{
    let next = spec_scan_step(scan, code);
    let noted = spec_noted(scan);
    assert(!spec_unsat_leaf(scan));
    assert forall|k: int| 0 <= k < noted.len() implies 1 <= (#[trigger] noted[k]).first <= ODDS_CAP
        && 1 <= noted[k].second <= ODDS_CAP && !noted[k].zero && noted[k].unsat == 0 by {
        if k < noted.len() - 1 {
            assert(noted[k] == scan.stack[k]);
        } else {
            assert(scan.stack[k].first >= 1);
        }
    }
    if code == 40 {
        assert forall|k: int| 0 <= k < next.stack.len() implies 1 <= (
        #[trigger] next.stack[k]).first <= ODDS_CAP && 1 <= next.stack[k].second <= ODDS_CAP
            && !next.stack[k].zero && next.stack[k].unsat == 0 by {
            if k < noted.len() {
                assert(next.stack[k] == noted[k]);
            }
        }
    } else if code == 44 {
        assert forall|k: int| 0 <= k < next.stack.len() implies 1 <= (
        #[trigger] next.stack[k]).first <= ODDS_CAP && 1 <= next.stack[k].second <= ODDS_CAP
            && !next.stack[k].zero && next.stack[k].unsat == 0 by {
            assert(noted[k].first >= 1);
        }
    } else if code == 41 {
        if noted.len() > 0 {
            let top = noted.last();
            assert(noted[noted.len() - 1].first >= 1);
            assert(!spec_out_of_range(top));
            let rest = noted.drop_last();
            assert forall|k: int| 0 <= k < next.stack.len() implies 1 <= (
            #[trigger] next.stack[k]).first <= ODDS_CAP && 1 <= next.stack[k].second <= ODDS_CAP
                && !next.stack[k].zero && next.stack[k].unsat == 0 by {
                assert(rest[k] == noted[k]);
                assert(noted[k].first >= 1);
            }
        }
    } else if scan.in_name && code != 64 {
        assert forall|k: int| 0 <= k < next.stack.len() implies 1 <= (
        #[trigger] next.stack[k]).first <= ODDS_CAP && 1 <= next.stack[k].second <= ODDS_CAP
            && !next.stack[k].zero && next.stack[k].unsat == 0 by {
            assert(scan.stack[k].first >= 1);
        }
    }
}

/// Whether every `@` of a text directly follows a digit from 1 to 9.
pub open spec fn spec_odds_end_nonzero(text: Seq<char>) -> bool {
    forall|at: int|
        0 <= at < text.len() && (#[trigger] text[at]) as u8 == 64 ==> at >= 1 && spec_nonzero_digit(
            text[at - 1] as u8,
        )
}

proof fn lemma_weighted_scan(text: Seq<char>)
    requires
        usize::MAX >= 2 * ODDS_CAP,
        spec_odds_end_nonzero(text),
        forall|at: int| 0 <= at < text.len() ==> (#[trigger] text[at]) as u8 != 85,
    ensures
        spec_weighted(
            spec_scan(text),
            text.len() > 0 && spec_nonzero_digit(text.last() as u8),
        ),
    decreases text.len(),
{
    if text.len() > 0 {
        let front = text.drop_last();
        assert(forall|at: int| 0 <= at < front.len() ==> front[at] == text[at]);
        assert(spec_odds_end_nonzero(front)) by {
            assert forall|at: int| 0 <= at < front.len() && (#[trigger] front[at]) as u8
                == 64 implies at >= 1 && spec_nonzero_digit(front[at - 1] as u8) by {
                assert(text[at] as u8 == 64);
            }
        }
        lemma_weighted_scan(front);
        let last = text.len() - 1;
        if text[last] as u8 == 64 {
            assert(last >= 1 && spec_nonzero_digit(text[last - 1] as u8));
            assert(front.last() == text[last - 1]);
        }
        lemma_weighted_step(
            spec_scan(front),
            front.len() > 0 && spec_nonzero_digit(front.last() as u8),
            text.last() as u8,
        );
    }
}

/// On a machine whose word holds twice the greatest odds, an ASCII text
/// without the letter `U` in which every `@` directly follows a digit from
/// 1 to 9 is in range: no odds are zero, so every disjunction's odds sum to
/// at least 1, and no leaf is named `UNSATISFIABLE`.
pub proof fn lemma_weighted_text_in_range(text: Seq<char>)
    requires
        usize::MAX >= 2 * ODDS_CAP,
        is_ascii_chars(text),
        spec_odds_end_nonzero(text),
        forall|at: int| 0 <= at < text.len() ==> (#[trigger] text[at]) as u8 != 85,
    ensures
        spec_in_range(text),
{
    lemma_weighted_scan(text);
}

/// A text stays out of range however it goes on: what a scan has found out
/// of range, no later character takes back.
pub proof fn lemma_out_of_range_persists(text: Seq<char>, rest: Seq<char>)
    requires
        spec_scan(text).bad,
    ensures
        spec_scan(text + rest).bad,
        !spec_in_range(text + rest),
    decreases rest.len(),
{
    if rest.len() == 0 {
        assert(text + rest =~= text);
    } else {
        lemma_out_of_range_persists(text, rest.drop_last());
        assert((text + rest).drop_last() =~= text + rest.drop_last());
    }
}

/// A disjunction that closes with odds of zero on both branches puts the
/// text out of range, whatever stands around it.
pub proof fn lemma_zero_odds_out_of_range(text: Seq<char>)
    requires
        spec_scan(text).stack.len() > 0,
        spec_noted(spec_scan(text)).last().kind == KIND_OR,
        spec_noted(spec_scan(text)).last().first == 0,
        spec_noted(spec_scan(text)).last().second == 0,
    ensures
        !spec_in_range(text.push(')')),
{
    assert(text.push(')').drop_last() =~= text);
    assert(')' as u8 == 41);
}

/// The scan that goes on from a given one through the characters of a text.
pub open spec fn spec_scan_from(scan: ScanView, text: Seq<char>) -> ScanView
    decreases text.len(),
{
    if text.len() == 0 {
        scan
    } else {
        spec_scan_step(spec_scan_from(scan, text.drop_last()), text.last() as u8)
    }
}

/// Scanning two texts one after the other is scanning them joined.
pub proof fn lemma_scan_from_joined(scan: ScanView, one: Seq<char>, other: Seq<char>)
    ensures
        spec_scan_from(scan, one + other) == spec_scan_from(spec_scan_from(scan, one), other),
    decreases other.len(),
{
    if other.len() == 0 {
        assert(one + other =~= one);
    } else {
        lemma_scan_from_joined(scan, one, other.drop_last());
        assert((one + other).drop_last() =~= one + other.drop_last());
    }
}

/// The scan of a text is the scan from the start through the text.
pub proof fn lemma_scan_from_start(text: Seq<char>)
    ensures
        spec_scan(text) == spec_scan_from(spec_scan_start(), text),
    decreases text.len(),
{
    if text.len() > 0 {
        lemma_scan_from_start(text.drop_last());
    }
}

/// Whether a text holds no bracket, no comma and no `@`: it can stand as a
/// name proper, or as the one argument of a call.
pub open spec fn spec_is_run(text: Seq<char>) -> bool {
    forall|at: int|
        0 <= at < text.len() ==> (#[trigger] text[at]) as u8 != 40 && text[at] as u8 != 41
            && text[at] as u8 != 44 && text[at] as u8 != 64
}

/// A run changes neither the open brackets nor the odds of the name that it
/// belongs to.
pub proof fn lemma_scan_run(scan: ScanView, run: Seq<char>)
    requires
        spec_is_run(run),
    ensures
        spec_scan_from(scan, run).stack == scan.stack,
        spec_scan_from(scan, run).bad == scan.bad,
        spec_scan_from(scan, run).in_name == scan.in_name,
        spec_scan_from(scan, run).odds == scan.odds,
    decreases run.len(),
{
    if run.len() > 0 {
        let front = run.drop_last();
        assert(forall|at: int| 0 <= at < front.len() ==> front[at] == run[at]);
        lemma_scan_run(scan, front);
    }
}

/// The scan after a call with odds of zero, `0@` name `(` argument `)`,
/// that stands as an argument of a disjunction: the odds of zero are noted
/// for that argument, and the disjunction is the innermost open bracket
/// again.
proof fn lemma_scan_zero_call(scan: ScanView, name: Seq<char>, argument: Seq<char>)
    requires
        scan.in_name,
        scan.digits,
        scan.value == 0,
        scan.stack.len() > 0,
        scan.stack.last().kind == KIND_OR,
        spec_is_run(name),
        spec_is_run(argument),
    ensures
        spec_scan_from(scan, seq!['0', '@'] + name + seq!['('] + argument + seq![')']).stack.len()
            == scan.stack.len(),
        !spec_scan_from(scan, seq!['0', '@'] + name + seq!['('] + argument + seq![')']).in_name,
        spec_scan_from(scan, seq!['0', '@'] + name + seq!['('] + argument + seq![')']).stack.last()
            == (OddsFrame {
            first: if scan.stack.last().index == 0 {
                0
            } else {
                scan.stack.last().first
            },
            second: if scan.stack.last().index == 1 {
                0
            } else {
                scan.stack.last().second
            },
            unsat: spec_scan_from(
                scan,
                seq!['0', '@'] + name + seq!['('] + argument + seq![')'],
            ).stack.last().unsat,
            ..scan.stack.last()
        }),
{
    let odds = seq!['0', '@'];
    let open = seq!['('];
    let close = seq![')'];
    let after_odds = spec_scan_from(scan, odds);
    assert(after_odds == spec_scan_step(spec_scan_step(scan, 48), 64)) by {
        assert(odds.drop_last() =~= seq!['0']);
        assert(seq!['0'].drop_last() =~= Seq::<char>::empty());
        assert('0' as u8 == 48 && '@' as u8 == 64);
        reveal_with_fuel(spec_scan_from, 3);
    }
    assert(after_odds.odds == 0 && after_odds.in_name && after_odds.stack == scan.stack);
    let after_name = spec_scan_from(after_odds, name);
    lemma_scan_run(after_odds, name);
    let after_open = spec_scan_from(after_name, open);
    assert(after_open == spec_scan_step(after_name, 40)) by {
        assert(open.drop_last() =~= Seq::<char>::empty());
        assert('(' as u8 == 40);
        reveal_with_fuel(spec_scan_from, 2);
    }
    let noted = spec_noted(after_name);
    assert(after_open.stack == noted.push(spec_opened(after_name, Some(noted.last()))));
    let after_argument = spec_scan_from(after_open, argument);
    lemma_scan_run(after_open, argument);
    let after_close = spec_scan_from(after_argument, close);
    assert(after_close == spec_scan_step(after_argument, 41)) by {
        assert(close.drop_last() =~= Seq::<char>::empty());
        assert(')' as u8 == 41);
        reveal_with_fuel(spec_scan_from, 2);
    }
    let inner = spec_noted(after_argument);
    assert(inner.len() == after_open.stack.len());
    assert(inner.drop_last() =~= noted);
    assert(after_close.stack == spec_closed(inner));
    lemma_scan_from_joined(scan, odds, name);
    lemma_scan_from_joined(scan, odds + name, open);
    lemma_scan_from_joined(scan, odds + name + open, argument);
    lemma_scan_from_joined(scan, odds + name + open + argument, close);
}

/// A disjunction of two calls that both have odds of zero puts a text out
/// of range, wherever a name can start and whatever follows: the text
/// `or(0@f(a),0@g(b))` for any names `f`, `g` and arguments `a`, `b`,
/// after any text that ends where a name starts.
pub proof fn lemma_disjunction_without_odds(
    before: Seq<char>,
    f: Seq<char>,
    a: Seq<char>,
    g: Seq<char>,
    b: Seq<char>,
    after: Seq<char>,
)
    requires
        spec_scan(before).in_name,
        spec_scan(before).pos == 0,
        spec_scan(before).fits_or,
        spec_is_run(f),
        spec_is_run(a),
        spec_is_run(g),
        spec_is_run(b),
    ensures
        !spec_in_range(
            before + seq!['o', 'r', '('] + (seq!['0', '@'] + f + seq!['('] + a + seq![')']) + seq![
                ',',
            ] + (seq!['0', '@'] + g + seq!['('] + b + seq![')']) + seq![')'] + after,
        ),
{
    let head = seq!['o', 'r', '('];
    let left = seq!['0', '@'] + f + seq!['('] + a + seq![')'];
    let comma = seq![','];
    let right = seq!['0', '@'] + g + seq!['('] + b + seq![')'];
    let close = seq![')'];
    let start = spec_scan(before);
    let opened = spec_scan_from(start, head);
    assert(opened == spec_scan_step(spec_scan_step(spec_scan_step(start, 111), 114), 40)) by {
        assert(head.drop_last() =~= seq!['o', 'r']);
        assert(seq!['o', 'r'].drop_last() =~= seq!['o']);
        assert(seq!['o'].drop_last() =~= Seq::<char>::empty());
        assert('o' as u8 == 111 && 'r' as u8 == 114 && '(' as u8 == 40);
        reveal_with_fuel(spec_scan_from, 4);
    }
    let named = spec_scan_step(spec_scan_step(start, 111), 114);
    assert(spec_kind(named) == KIND_OR);
    assert(opened.stack.last().kind == KIND_OR && opened.stack.last().index == 0);
    lemma_scan_zero_call(opened, f, a);
    let first_done = spec_scan_from(opened, left);
    assert(first_done.stack.last().first == 0 && first_done.stack.last().index == 0);
    let between = spec_scan_from(first_done, comma);
    assert(between == spec_scan_step(first_done, 44)) by {
        assert(comma.drop_last() =~= Seq::<char>::empty());
        assert(',' as u8 == 44);
        reveal_with_fuel(spec_scan_from, 2);
    }
    assert(spec_noted(first_done) =~= first_done.stack);
    assert(between.stack.last().index == 1 && between.stack.last().first == 0
        && between.stack.last().kind == KIND_OR);
    lemma_scan_zero_call(between, g, b);
    let second_done = spec_scan_from(between, right);
    assert(second_done.stack.last().first == 0 && second_done.stack.last().second == 0
        && second_done.stack.last().kind == KIND_OR);
    let closed = spec_scan_from(second_done, close);
    assert(closed == spec_scan_step(second_done, 41)) by {
        assert(close.drop_last() =~= Seq::<char>::empty());
        assert(')' as u8 == 41);
        reveal_with_fuel(spec_scan_from, 2);
    }
    assert(spec_noted(second_done) =~= second_done.stack);
    assert(spec_out_of_range(second_done.stack.last()));
    assert(closed.bad);
    let text = before + head + left + comma + right + close;
    lemma_scan_from_start(before);
    lemma_scan_from_start(text);
    lemma_scan_from_joined(spec_scan_start(), before, head);
    lemma_scan_from_joined(spec_scan_start(), before + head, left);
    lemma_scan_from_joined(spec_scan_start(), before + head + left, comma);
    lemma_scan_from_joined(spec_scan_start(), before + head + left + comma, right);
    lemma_scan_from_joined(spec_scan_start(), before + head + left + comma + right, close);
    assert(spec_scan(text) == closed);
    lemma_out_of_range_persists(text, after);
}

/// The message for a policy that the compiler cannot weigh.
pub open spec fn spec_range_message() -> Seq<char> {
    "Policy odds or unsatisfiable branches are out of range"@
}

/// The outcome of compiling a text: a text that is no policy is a parse
/// error; a policy out of the compiler's range is a compile error, as is a
/// policy for which the compiler finds no script; any other policy compiles
/// to a Miniscript.
pub open spec fn spec_compile(text: Seq<char>) -> Result<Seq<char>, PolicyErrorView> {
    match policy_syntax_error(text) {
        Some(message) => Err(PolicyErrorView::Parse(message)),
        None => if !spec_in_range(text) {
            Err(PolicyErrorView::Compile(spec_range_message()))
        } else {
            match policy_compilation(text) {
                Ok(script) => Ok(script),
                Err(message) => Err(PolicyErrorView::Compile(message)),
            }
        },
    }
}

/// Calls `policy::Concrete::<String>::from_str` and hands out the error's
/// text, if any. Trusted: the outcome is `policy_syntax_error` of the text.
#[verifier::external_body]
fn check_policy(text: &str) -> (error: Option<String>)
    ensures
        spec_optional_text(error) == policy_syntax_error(text@),
{
    Concrete::<String>::from_str(text).err().map(|error| error.to_string())
}

/// Calls `policy::Concrete::<String>::from_str`, then `compile` for the
/// Tapscript context, and writes the Miniscript or the error out with
/// `to_string`. Trusted: for a policy in range the call returns, and the
/// outcome is `policy_compilation` of the text.
///
/// The compiler gives each branch of a disjunction its odds divided by the
/// sum of both, gives each argument of a threshold the share k/n, and orders
/// its candidates by a cost in floating point: the probability of a node
/// times what it costs to satisfy, where an unsatisfiable leaf costs the
/// largest finite number. The order fails on a cost that is no number. Such
/// a cost arises from odds that sum to zero, and from a probability of zero
/// times an infinite cost; a cost is infinite only where those of two
/// unsatisfiable leaves are added. In range, every sum of odds is at least
/// 1 and fits the machine's word, and a node with two unsatisfiable leaves
/// below it has a probability above zero: no branch above it has odds of
/// zero, and the shares above it, each at least 2^-33 for a disjunction and
/// 2^-64 for a threshold, multiply to more than 2^-1000.
#[verifier::external_body]
fn compile_policy(text: &str) -> (compiled: Result<String, String>)
    requires
        policy_syntax_error(text@) is None,
        spec_in_range(text@),
    ensures
        spec_text_result(compiled) == policy_compilation(text@),
{
    let policy = Concrete::<String>::from_str(text).expect("a policy that parses");
    let compiled: Result<Miniscript<String, Tap>, _> = policy.compile();
    match compiled {
        Ok(script) => Ok(script.to_string()),
        Err(error) => Err(error.to_string()),
    }
}

/// Compiles a policy to Tapscript Miniscript and returns the Miniscript's
/// text. A policy out of the compiler's range is a compile error, and the
/// compiler does not see it.
pub fn compile(s: &str) -> (compiled: Result<String, PolicyError>)
    ensures
        spec_compiled(compiled) == spec_compile(s@),
{
    match check_policy(s) {
        Some(message) => Err(PolicyError::Parse(message)),
        None => if !in_range(s) {
            Err(PolicyError::Compile("Policy odds or unsatisfiable branches are out of range".to_owned()))
        } else {
            match compile_policy(s) {
                Ok(script) => Ok(script),
                Err(message) => Err(PolicyError::Compile(message)),
            }
        },
    }
}

} // verus!
