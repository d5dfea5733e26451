//! The pattern scanner: one pass over the characters of a pattern, which
//! collects prefixes and numbers, expands ranges as their brackets close,
//! and gathers the names of each item of the pattern.

use vstd::prelude::*;
use crate::error::{ExpandError, Failure};
use crate::order::{is_sorted_set_of, lemma_ascending_unique, sorted_distinct};
use crate::range::{host_range, host_range_chars};
use crate::text::{copy_chars, rows, strings_of, texts, unicode_alphabetic, unicode_numeric};

verus! {

/// A character of a pattern, with the classes it belongs to.
#[derive(Debug, Clone, Copy, PartialEq, Eq)]
pub struct Symbol {
    /// The character.
    pub c: char,
    /// The character is alphabetic.
    pub letter: bool,
    /// The character is numeric.
    pub numeral: bool,
}

/// A character with the classes that Unicode gives it.
pub open spec fn classify(c: char) -> Symbol {
    Symbol { c, letter: unicode_alphabetic(c), numeral: unicode_numeric(c) }
}

/// The characters of a pattern, each with its classes.
pub open spec fn classify_all(pattern: Seq<char>) -> Seq<Symbol> {
    Seq::new(pattern.len(), |i: int| classify(pattern[i]))
}

/// What the scanner remembers between two characters.
pub struct ScanState {
    /// How many brackets are open, less how many were closed without having
    /// been opened.
    pub depth: int,
    /// The letters read outside brackets since the last item ended there.
    pub prefix: Seq<char>,
    /// The numerals read since they were last taken.
    pub digits: Seq<char>,
    /// The start of a range whose end is still being read.
    pub range_start: Option<Seq<char>>,
    /// The names of the item that is being read.
    pub queue: Seq<Seq<char>>,
    /// The names of the items that have ended.
    pub hosts: Seq<Seq<char>>,
}

/// The state before the first character.
pub open spec fn start_state() -> ScanState {
    ScanState {
        depth: 0,
        prefix: Seq::empty(),
        digits: Seq::empty(),
        range_start: None,
        queue: Seq::empty(),
        hosts: Seq::empty(),
    }
}

/// A letter outside brackets extends the prefix; a letter elsewhere is
/// dropped. A numeral extends the number, wherever it stands. A character
/// that is both does both.
pub open spec fn collect(s: ScanState, g: Symbol) -> ScanState {
    ScanState {
        prefix: if g.letter && s.depth == 0 {
            s.prefix.push(g.c)
        } else {
            s.prefix
        },
        digits: if g.numeral {
            s.digits.push(g.c)
        } else {
            s.digits
        },
        ..s
    }
}

/// The names of the range that is being read, from its start to the number
/// read so far, behind the prefix. There is none when no range was begun.
pub open spec fn pending_range(s: ScanState) -> Result<Seq<Seq<char>>, Failure> {
    match s.range_start {
        Some(start) => host_range(s.prefix, start, s.digits),
        None => Ok(Seq::empty()),
    }
}

/// `[` opens a bracket group. It may not stand inside one.
pub open spec fn open_bracket(s: ScanState) -> Result<ScanState, Failure> {
    if s.depth >= 1 {
        Err(Failure::NestedBrackets)
    } else {
        Ok(ScanState { depth: s.depth + 1, ..s })
    }
}

/// `]` closes a bracket group: a range that is being read is expanded into
/// the queue. The number read so far stays.
pub open spec fn close_bracket(s: ScanState) -> Result<ScanState, Failure> {
    match pending_range(s) {
        Err(e) => Err(e),
        Ok(names) => Ok(
            ScanState { depth: s.depth - 1, range_start: None, queue: s.queue + names, ..s },
        ),
    }
}

/// `-` makes the number read so far the start of a range.
pub open spec fn begin_range(s: ScanState) -> ScanState {
    ScanState { range_start: Some(s.digits), digits: Seq::empty(), ..s }
}

/// A comma, or the end of the pattern, ends an item: a range that is being
/// read is expanded, the prefix with the number read so far is one more
/// name, and the names of the item join those of the items before it.
/// Outside brackets the prefix starts anew.
pub open spec fn end_item(s: ScanState) -> Result<ScanState, Failure> {
    match pending_range(s) {
        Err(e) => Err(e),
        Ok(names) => Ok(
            ScanState {
                depth: s.depth,
                prefix: if s.depth == 0 {
                    Seq::empty()
                } else {
                    s.prefix
                },
                digits: Seq::empty(),
                range_start: None,
                queue: Seq::empty(),
                hosts: s.hosts + (s.queue + names).push(s.prefix + s.digits),
            },
        ),
    }
}

/// What a character does to the state. `last` says that it is the last
/// character of the pattern.
///
/// The brackets, the hyphen and the comma do their own work, whatever their
/// classes; any other character is collected by its classes. After that, a
/// comma or the last character ends the item.
pub open spec fn step(s: ScanState, g: Symbol, last: bool) -> Result<ScanState, Failure> {
    let moved = if g.c == '[' {
        open_bracket(s)
    } else if g.c == ']' {
        close_bracket(s)
    } else if g.c == '-' {
        Ok(begin_range(s))
    } else if g.c == ',' {
        Ok(s)
    } else {
        Ok(collect(s, g))
    };
    match moved {
        Err(e) => Err(e),
        Ok(t) => if g.c == ',' || last {
            end_item(t)
        } else {
            Ok(t)
        },
    }
}

/// The state after the characters `symbols`, read from state `s`. With
/// `closing`, the last of them is the last character of the pattern. The
/// first failure ends the scan.
pub open spec fn scan_from(s: ScanState, symbols: Seq<Symbol>, closing: bool) -> Result<
    ScanState,
    Failure,
>
    decreases symbols.len(),
{
    if symbols.len() == 0 {
        Ok(s)
    } else {
        match step(s, symbols[0], closing && symbols.len() == 1) {
            Err(e) => Err(e),
            Ok(t) => scan_from(t, symbols.drop_first(), closing),
        }
    }
}

/// The state in which the scan of a whole pattern ends.
pub open spec fn scan(symbols: Seq<Symbol>) -> Result<ScanState, Failure> {
    scan_from(start_state(), symbols, true)
}

/// The names that classified characters stand for, in the order in which
/// the scan finds them and as often as it finds them: those of the items
/// that have ended, and what is left in the queue.
pub open spec fn names_of_symbols(symbols: Seq<Symbol>) -> Result<Seq<Seq<char>>, Failure> {
    match scan(symbols) {
        Err(e) => Err(e),
        Ok(s) => Ok(s.hosts + s.queue),
    }
}

/// The names that a pattern stands for, in the order in which the scan
/// finds them and as often as it finds them.
pub open spec fn scanned_names(pattern: Seq<char>) -> Result<Seq<Seq<char>>, Failure> {
    names_of_symbols(classify_all(pattern))
}

/// `names` is the expansion of the classified characters `symbols`: they
/// are accepted, and `names` lists the names that their scan finds, in
/// ascending order and each once.
pub open spec fn is_expansion_of_symbols(names: Seq<Seq<char>>, symbols: Seq<Symbol>) -> bool {
    names_of_symbols(symbols) matches Ok(all) && is_sorted_set_of(names, all)
}

/// `names` is the expansion of `pattern`: the pattern is accepted, and
/// `names` lists the names that its scan finds, in ascending order and each
/// once.
pub open spec fn is_expansion_of(names: Seq<Seq<char>>, pattern: Seq<char>) -> bool {
    is_expansion_of_symbols(names, classify_all(pattern))
}

/// The depth never exceeds 1: a scan that starts at depth 1 or below stays
/// there as long as it goes on.
pub proof fn lemma_depth_at_most_one(s: ScanState, symbols: Seq<Symbol>, closing: bool)
    requires
        s.depth <= 1,
    ensures
        scan_from(s, symbols, closing) matches Ok(t) ==> t.depth <= 1,
    decreases symbols.len(),
{
    if symbols.len() > 0 {
        match step(s, symbols[0], closing && symbols.len() == 1) {
            Ok(t) => {
                lemma_depth_at_most_one(t, symbols.drop_first(), closing);
            },
            Err(e) => {},
        }
    }
}

/// Inside brackets the prefix is the one that was read before the bracket
/// opened: no character but the closing bracket changes it there.
pub proof fn lemma_prefix_kept_in_brackets(s: ScanState, g: Symbol, last: bool)
    requires
        s.depth == 1,
        g.c != ']',
    ensures
        step(s, g, last) matches Ok(t) ==> t.prefix == s.prefix && t.depth == 1,
{
}

/// A range is expanded behind the prefix that was read before its bracket
/// opened, from the start that stood before the hyphen to the number read
/// since.
pub proof fn lemma_range_closes(s: ScanState, g: Symbol, start: Seq<char>)
    requires
        g.c == ']',
        s.range_start == Some(start),
    ensures
        match host_range(s.prefix, start, s.digits) {
            Ok(names) => step(s, g, false) matches Ok(t) && t.queue == s.queue + names
                && t.depth == s.depth - 1 && t.range_start.is_none(),
            Err(e) => step(s, g, false) == Err::<ScanState, Failure>(e),
        },
{
}

/// A pattern has at most one expansion.
pub proof fn lemma_expansion_unique(a: Seq<Seq<char>>, b: Seq<Seq<char>>, pattern: Seq<char>)
    requires
        is_expansion_of(a, pattern),
        is_expansion_of(b, pattern),
    ensures
        a == b,
{
    lemma_ascending_unique(a, b);
}

/// The scanner's state as the program holds it.
struct Scanner {
    depth: i128,
    prefix: Vec<char>,
    digits: Vec<char>,
    range_start: Option<Vec<char>>,
    queue: Vec<Vec<char>>,
    hosts: Vec<Vec<char>>,
}

impl View for Scanner {
    type V = ScanState;

    closed spec fn view(&self) -> ScanState {
        ScanState {
            depth: self.depth as int,
            prefix: self.prefix@,
            digits: self.digits@,
            range_start: match self.range_start {
                Some(start) => Some(start@),
                None => None,
            },
            queue: rows(self.queue@),
            hosts: rows(self.hosts@),
        }
    }
}

impl Scanner {
    fn new() -> (s: Scanner)
        ensures
            s@ == start_state(),
    {
        let s = Scanner {
            depth: 0,
            prefix: Vec::new(),
            digits: Vec::new(),
            range_start: None,
            queue: Vec::new(),
            hosts: Vec::new(),
        };
        assert(s@.queue =~= Seq::empty());
        assert(s@.hosts =~= Seq::empty());
        s
    }

    fn expand_pending(&self) -> (r: Result<Vec<Vec<char>>, ExpandError>)
        ensures
            match r {
                Ok(names) => pending_range(self@) == Ok::<Seq<Seq<char>>, Failure>(rows(names@)),
                Err(e) => pending_range(self@) == Err::<Seq<Seq<char>>, Failure>(e@),
            },
    {
        match &self.range_start {
            Some(start) => host_range_chars(&self.prefix, start, &self.digits),
            None => {
                let names: Vec<Vec<char>> = Vec::new();
                assert(rows(names@) =~= Seq::empty());
                Ok(names)
            },
        }
    }

    fn collect(self, g: Symbol) -> (t: Scanner)
        ensures
            t@ == collect(self@, g),
            t.depth == self.depth,
    {
        let mut t = self;
        if g.letter && t.depth == 0 {
            t.prefix.push(g.c);
        }
        if g.numeral {
            t.digits.push(g.c);
        }
        t
    }

    fn open_bracket(self) -> (r: Result<Scanner, ExpandError>)
        ensures
            match r {
                Ok(t) => open_bracket(self@) == Ok::<ScanState, Failure>(t@) && t.depth
                    == self.depth + 1,
                Err(e) => open_bracket(self@) == Err::<ScanState, Failure>(e@),
            },
    {
        if self.depth >= 1 {
            return Err(ExpandError::NestedBrackets);
        }
        let mut t = self;
        t.depth = t.depth + 1;
        Ok(t)
    }

    fn close_bracket(self) -> (r: Result<Scanner, ExpandError>)
        requires
            self.depth > i128::MIN,
        ensures
            match r {
                Ok(t) => close_bracket(self@) == Ok::<ScanState, Failure>(t@) && t.depth
                    == self.depth - 1,
                Err(e) => close_bracket(self@) == Err::<ScanState, Failure>(e@),
            },
    {
        let mut names = match self.expand_pending() {
            Ok(names) => names,
            Err(e) => {
                return Err(e);
            },
        };
        let mut t = self;
        proof {
            assert(rows(t.queue@ + names@) =~= rows(t.queue@) + rows(names@));
        }
        t.queue.append(&mut names);
        t.depth = t.depth - 1;
        t.range_start = None;
        Ok(t)
    }

    fn begin_range(self) -> (t: Scanner)
        ensures
            t@ == begin_range(self@),
            t.depth == self.depth,
    {
        let Scanner { depth, prefix, digits, range_start: _, queue, hosts } = self;
        Scanner { depth, prefix, digits: Vec::new(), range_start: Some(digits), queue, hosts }
    }

    fn end_item(self) -> (r: Result<Scanner, ExpandError>)
        ensures
            match r {
                Ok(t) => end_item(self@) == Ok::<ScanState, Failure>(t@) && t.depth
                    == self.depth,
                Err(e) => end_item(self@) == Err::<ScanState, Failure>(e@),
            },
    {
        let mut names = match self.expand_pending() {
            Ok(names) => names,
            Err(e) => {
                return Err(e);
            },
        };
        let Scanner { depth, prefix, digits, range_start: _, queue, hosts } = self;
        let mut queue = queue;
        let mut hosts = hosts;
        let mut digits = digits;
        let mut name = copy_chars(&prefix);
        name.append(&mut digits);
        proof {
            let item = (queue@ + names@).push(name);
            assert(rows(hosts@ + item) =~= rows(hosts@) + (rows(queue@) + rows(names@)).push(
                name@,
            ));
        }
        queue.append(&mut names);
        queue.push(name);
        hosts.append(&mut queue);
        let prefix = if depth == 0 {
            Vec::new()
        } else {
            prefix
        };
        let t = Scanner { depth, prefix, digits, range_start: None, queue, hosts };
        proof {
            assert(t@.queue =~= Seq::empty());
        }
        Ok(t)
    }

    fn step(self, g: Symbol, last: bool) -> (r: Result<Scanner, ExpandError>)
        requires
            self.depth > i128::MIN,
        ensures
            match r {
                Ok(t) => step(self@, g, last) == Ok::<ScanState, Failure>(t@) && t.depth
                    >= self.depth - 1,
                Err(e) => step(self@, g, last) == Err::<ScanState, Failure>(e@),
            },
    {
        let moved = if g.c == '[' {
            self.open_bracket()
        } else if g.c == ']' {
            self.close_bracket()
        } else if g.c == '-' {
            Ok(self.begin_range())
        } else if g.c == ',' {
            Ok(self)
        } else {
            Ok(self.collect(g))
        };
        match moved {
            Err(e) => Err(e),
            Ok(t) => if g.c == ',' || last {
                t.end_item()
            } else {
                Ok(t)
            },
        }
    }
}

/// The character `c` with the classes that Unicode gives it.
pub fn symbol_of(c: char) -> (g: Symbol)
    ensures
        g == classify(c),
{
    Symbol { c, letter: c.is_alphabetic(), numeral: c.is_numeric() }
}

/// The characters of `pattern`, each with its classes.
pub fn symbols_of(pattern: &str) -> (symbols: Vec<Symbol>)
    ensures
        symbols@ == classify_all(pattern@),
{
    let mut symbols: Vec<Symbol> = Vec::new();
    for c in it: pattern.chars()
        invariant
            it.seq() == pattern@,
            symbols@ == classify_all(it.seq().take(it.index())),
    {
        proof {
            let read = it.seq().take(it.index());
            let more = it.seq().take(it.index() + 1);
            assert(classify_all(more) =~= classify_all(read).push(classify(c)));
        }
        symbols.push(symbol_of(c));
    }
    assert(pattern@.take(pattern@.len() as int) =~= pattern@);
    symbols
}

/// Expands a pattern whose characters come with their classes: the names
/// that the scan finds, in ascending order and each once, or the first
/// failure of the scan.
pub fn expand_symbols(symbols: &Vec<Symbol>) -> (r: Result<Vec<Vec<char>>, ExpandError>)
    ensures
        match r {
            Ok(names) => is_expansion_of_symbols(rows(names@), symbols@),
            Err(e) => names_of_symbols(symbols@) == Err::<Seq<Seq<char>>, Failure>(e@),
        },
{
    let n: usize = symbols.len();
    let mut scanner = Scanner::new();
    let mut i: usize = 0;
    assert(symbols@.skip(0) =~= symbols@);
    while i < n
        invariant
            n == symbols@.len(),
            i <= n,
            scanner.depth >= -(i as int),
            scan(symbols@) == scan_from(scanner@, symbols@.skip(i as int), true),
        decreases n - i,
    {
        let g = symbols[i];
        let last = i == n - 1;
        proof {
            let rest = symbols@.skip(i as int);
            assert(rest[0] == g);
            assert(rest.drop_first() =~= symbols@.skip(i + 1));
        }
        match scanner.step(g, last) {
            Ok(next) => {
                scanner = next;
            },
            Err(e) => {
                return Err(e);
            },
        }
        i = i + 1;
    }
    let Scanner { depth: _, prefix: _, digits: _, range_start: _, queue, hosts } = scanner;
    let mut queue = queue;
    let mut hosts = hosts;
    proof {
        assert(rows(hosts@ + queue@) =~= rows(hosts@) + rows(queue@));
    }
    hosts.append(&mut queue);
    Ok(sorted_distinct(&hosts))
}

/// Expands a pattern into the host names it stands for, in ascending order
/// and each once.
///
/// The pattern is read once from left to right, as `scanned_names` says.
/// It is refused when a bracket is opened inside a bracket group, and when a
/// range has ends of different widths or an end that is no number; the
/// first failure met is the one returned. A bracket that is still open at
/// the end of the pattern is accepted, and so is a closing bracket without
/// an opening one.
pub fn expand_hostnames(pattern: &str) -> (r: Result<Vec<String>, ExpandError>)
    ensures
        match r {
            Ok(names) => is_expansion_of(texts(names@), pattern@),
            Err(e) => scanned_names(pattern@) == Err::<Seq<Seq<char>>, Failure>(e@),
        },
{
    let symbols = symbols_of(pattern);
    match expand_symbols(&symbols) {
        Ok(names) => Ok(strings_of(&names)),
        Err(e) => Err(e),
    }
}

} // verus!
