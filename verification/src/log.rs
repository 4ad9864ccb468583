//! Log filtering configuration: the default level, per-target levels and the
//! destinations messages go to.

use vstd::prelude::*;

use crate::cmdline::{chars_of, copy_range, find_sep, next_sep, pieces_from};

verus! {

/// How verbose logging is, from nothing to everything.
#[derive(Debug, Clone, Copy, PartialEq, Eq, Structural)]
pub enum LevelFilter {
    Off,
    Error,
    Warn,
    Info,
    Debug,
    Trace,
}

/// The verbosity of a level, `Off` lowest.
pub open spec fn level_rank(l: LevelFilter) -> int {
    match l {
        LevelFilter::Off => 0,
        LevelFilter::Error => 1,
        LevelFilter::Warn => 2,
        LevelFilter::Info => 3,
        LevelFilter::Debug => 4,
        LevelFilter::Trace => 5,
    }
}

fn rank(l: LevelFilter) -> (r: u8)
    ensures
        r == level_rank(l),
{
    match l {
        LevelFilter::Off => 0,
        LevelFilter::Error => 1,
        LevelFilter::Warn => 2,
        LevelFilter::Info => 3,
        LevelFilter::Debug => 4,
        LevelFilter::Trace => 5,
    }
}

/// ASCII letters in lower case; every other character unchanged.
pub open spec fn ascii_lower(c: char) -> char {
    if 'A' <= c && c <= 'Z' {
        ((c as u32) + 32) as char
    } else {
        c
    }
}

/// The two strings are equal up to the case of ASCII letters.
pub open spec fn same_ignoring_case(a: Seq<char>, b: Seq<char>) -> bool {
    a.len() == b.len() && forall|i: int| 0 <= i < a.len() ==> ascii_lower(a[i]) == ascii_lower(b[i])
}

/// The level whose name `s` is, ignoring ASCII case.
pub open spec fn level_named(s: Seq<char>) -> Option<LevelFilter> {
    if same_ignoring_case(s, seq!['O', 'F', 'F']) {
        Some(LevelFilter::Off)
    } else if same_ignoring_case(s, seq!['E', 'R', 'R', 'O', 'R']) {
        Some(LevelFilter::Error)
    } else if same_ignoring_case(s, seq!['W', 'A', 'R', 'N']) {
        Some(LevelFilter::Warn)
    } else if same_ignoring_case(s, seq!['I', 'N', 'F', 'O']) {
        Some(LevelFilter::Info)
    } else if same_ignoring_case(s, seq!['D', 'E', 'B', 'U', 'G']) {
        Some(LevelFilter::Debug)
    } else if same_ignoring_case(s, seq!['T', 'R', 'A', 'C', 'E']) {
        Some(LevelFilter::Trace)
    } else {
        None
    }
}

/// `log::LevelFilter::from_str`: the level named by `name`, compared with
/// "OFF", "ERROR", "WARN", "INFO", "DEBUG" and "TRACE" ignoring ASCII case,
/// or nothing if it names none of them.
#[verifier::external_body]
fn parse_level_filter(name: &[char]) -> (r: Option<LevelFilter>)
    ensures
        r == level_named(name@),
{
    let s: String = name.iter().collect();
    match <::log::LevelFilter as core::str::FromStr>::from_str(&s) {
        Ok(::log::LevelFilter::Off) => Some(LevelFilter::Off),
        Ok(::log::LevelFilter::Error) => Some(LevelFilter::Error),
        Ok(::log::LevelFilter::Warn) => Some(LevelFilter::Warn),
        Ok(::log::LevelFilter::Info) => Some(LevelFilter::Info),
        Ok(::log::LevelFilter::Debug) => Some(LevelFilter::Debug),
        Ok(::log::LevelFilter::Trace) => Some(LevelFilter::Trace),
        Err(_) => None,
    }
}

/// The serial port destination.
#[derive(Debug, Clone, Copy, PartialEq, Eq, Structural)]
pub enum Serial {
    Com1,
}

/// The console terminal destination.
#[derive(Debug, Clone, Copy, PartialEq, Eq, Structural)]
pub struct Console;

/// A destination of log messages.
#[derive(Debug, Clone, Copy, PartialEq, Eq, Structural)]
pub enum Logger {
    Serial(Serial),
    Console(Console),
}

/// A target prefix and the level for targets that start with it.
pub type TargetLevel = (Vec<char>, LevelFilter);

/// The view of a target level.
pub open spec fn target_level_view(t: TargetLevel) -> (Seq<char>, LevelFilter) {
    (t.0@, t.1)
}

/// The number of bytes that `c` takes in UTF-8.
pub open spec fn utf8_width(c: char) -> int {
    if (c as u32) < 0x80 {
        1
    } else if (c as u32) < 0x800 {
        2
    } else if (c as u32) < 0x10000 {
        3
    } else {
        4
    }
}

/// The number of bytes that `s` takes in UTF-8.
pub open spec fn utf8_len(s: Seq<char>) -> int
    decreases s.len(),
{
    if s.len() == 0 {
        0
    } else {
        utf8_len(s.drop_last()) + utf8_width(s.last())
    }
}

fn byte_len(s: &[char]) -> (r: u128)
    ensures
        r == utf8_len(s@),
{
    let mut n: u128 = 0;
    let mut i: usize = 0;
    while i < s.len()
        invariant
            i <= s@.len(),
            n == utf8_len(s@.subrange(0, i as int)),
            n <= 4 * i,
        decreases s@.len() - i,
    {
        let c = s[i] as u32;
        let w: u128 = if c < 0x80 {
            1
        } else if c < 0x800 {
            2
        } else if c < 0x10000 {
            3
        } else {
            4
        };
        assert(s@.subrange(0, i + 1).drop_last() =~= s@.subrange(0, i as int));
        n = n + w;
        i = i + 1;
    }
    assert(s@.subrange(0, s@.len() as int) =~= s@);
    n
}

/// The first position in `sorted` whose prefix is shorter in UTF-8 than
/// `n` bytes, or the end.
pub open spec fn first_shorter(sorted: Seq<(Seq<char>, LevelFilter)>, n: int, i: int) -> int
    decreases sorted.len() - i,
{
    if i >= sorted.len() {
        sorted.len() as int
    } else if utf8_len(sorted[i].0) < n {
        i
    } else {
        first_shorter(sorted, n, i + 1)
    }
}

/// `s` sorted by decreasing prefix length in bytes; equal lengths keep
/// their order.
pub open spec fn sorted_by_length(s: Seq<(Seq<char>, LevelFilter)>) -> Seq<(Seq<char>, LevelFilter)>
    decreases s.len(),
{
    if s.len() == 0 {
        seq![]
    } else {
        let sorted = sorted_by_length(s.drop_last());
        sorted.insert(first_shorter(sorted, utf8_len(s.last().0), 0), s.last())
    }
}

/// The default level and the target levels that the comma-separated
/// filters `pieces[i..]` set, starting from `default` and `acc`; nothing if
/// a level does not parse.
pub open spec fn parse_filters(
    pieces: Seq<Seq<char>>,
    i: int,
    default: LevelFilter,
    acc: Seq<(Seq<char>, LevelFilter)>,
) -> Option<(LevelFilter, Seq<(Seq<char>, LevelFilter)>)>
    decreases pieces.len() - i,
{
    if i >= pieces.len() || i < 0 {
        Some((default, acc))
    } else {
        let p = pieces[i];
        let j = next_sep(p, 0, '=');
        if j < p.len() {
            match level_named(p.subrange(j + 1, p.len() as int)) {
                None => None,
                Some(l) => parse_filters(pieces, i + 1, default, acc.push((p.subrange(0, j), l))),
            }
        } else {
            match level_named(p) {
                None => None,
                Some(l) => parse_filters(pieces, i + 1, l, acc),
            }
        }
    }
}

/// `prefix` is a prefix of `s`.
pub open spec fn starts_with(s: Seq<char>, prefix: Seq<char>) -> bool {
    prefix.len() <= s.len() && s.subrange(0, prefix.len() as int) == prefix
}

/// The level of the first entry whose prefix starts `target`, else the
/// default.
pub open spec fn max_level_from(
    levels: Seq<(Seq<char>, LevelFilter)>,
    i: int,
    default: LevelFilter,
    target: Seq<char>,
) -> LevelFilter
    decreases levels.len() - i,
{
    if i >= levels.len() || i < 0 {
        default
    } else if starts_with(target, levels[i].0) {
        levels[i].1
    } else {
        max_level_from(levels, i + 1, default, target)
    }
}

/// The logging configuration.
pub struct Log {
    default_level: LevelFilter,
    log_levels: Vec<TargetLevel>,
    loggers: Vec<Logger>,
}

fn split_pieces(s: &[char], sep: char) -> (r: Vec<Vec<char>>)
    ensures
        r@.map_values(|v: Vec<char>| v@) == pieces_from(s@, 0, sep),
{
    let mut r: Vec<Vec<char>> = Vec::new();
    let mut pos: usize = 0;
    loop
        invariant
            pos <= s@.len(),
            r@.map_values(|v: Vec<char>| v@) + pieces_from(s@, pos as int, sep) == pieces_from(s@, 0, sep),
        decreases s@.len() - pos,
    {
        let j = find_sep(s, pos, sep);
        let piece = copy_range(s, pos, j);
        let ghost before = r@.map_values(|v: Vec<char>| v@);
        r.push(piece);
        assert(r@.map_values(|v: Vec<char>| v@) =~= before.push(piece@));
        if j >= s.len() {
            assert(pieces_from(s@, pos as int, sep) =~= seq![piece@]);
            assert(before + seq![piece@] =~= before.push(piece@));
            return r;
        }
        assert(before.push(piece@) + pieces_from(s@, j + 1, sep) =~= before + (seq![piece@] + pieces_from(
            s@,
            j + 1,
            sep,
        )));
        pos = j + 1;
    }
}

fn prefix_of(prefix: &[char], s: &[char]) -> (r: bool)
    ensures
        r == starts_with(s@, prefix@),
{
    if prefix.len() > s.len() {
        return false;
    }
    let mut i: usize = 0;
    while i < prefix.len()
        invariant
            i <= prefix@.len() <= s@.len(),
            forall|k: int| 0 <= k < i ==> s@[k] == prefix@[k],
        decreases prefix@.len() - i,
    {
        if prefix[i] != s[i] {
            assert(s@.subrange(0, prefix@.len() as int)[i as int] != prefix@[i as int]);
            return false;
        }
        i = i + 1;
    }
    assert(s@.subrange(0, prefix@.len() as int) =~= prefix@);
    true
}

proof fn lemma_first_shorter(sorted: Seq<(Seq<char>, LevelFilter)>, n: int, i: int, j: int)
    requires
        0 <= i <= j <= sorted.len(),
        forall|k: int| i <= k < j ==> utf8_len(#[trigger] sorted[k].0) >= n,
        j == sorted.len() || utf8_len(sorted[j].0) < n,
    ensures
        first_shorter(sorted, n, i) == j,
    decreases j - i,
{
    if i < j {
        lemma_first_shorter(sorted, n, i + 1, j);
    }
}

fn sort_by_length(levels: Vec<TargetLevel>) -> (r: Vec<TargetLevel>)
    ensures
        r@.map_values(|t: TargetLevel| target_level_view(t)) == sorted_by_length(
            levels@.map_values(|t: TargetLevel| target_level_view(t)),
        ),
{
    let ghost input = levels@.map_values(|t: TargetLevel| target_level_view(t));
    let ghost n = levels@.len();
    let mut sorted: Vec<TargetLevel> = Vec::new();
    let mut rest = levels;
    while rest.len() > 0
        invariant
            rest@.len() <= n,
            input.len() == n,
            rest@.map_values(|t: TargetLevel| target_level_view(t)) == input.subrange(n - rest@.len(), n as int),
            sorted@.map_values(|t: TargetLevel| target_level_view(t)) == sorted_by_length(
                input.subrange(0, n - rest@.len()),
            ),
        decreases rest@.len(),
    {
        let ghost k = n - rest@.len();
        let ghost sv = sorted@.map_values(|t: TargetLevel| target_level_view(t));
        let ghost rv = rest@;
        let item = rest.remove(0);
        assert(input[k] == target_level_view(item)) by {
            assert(input.subrange(k, n as int)[0] == input[k]);
        }
        let key = byte_len(item.0.as_slice());
        let mut i: usize = 0;
        while i < sorted.len() && byte_len(sorted[i].0.as_slice()) >= key
            invariant
                i <= sorted@.len(),
                sv == sorted@.map_values(|t: TargetLevel| target_level_view(t)),
                key == utf8_len(target_level_view(item).0),
                forall|j: int| 0 <= j < i ==> utf8_len(#[trigger] sv[j].0) >= key,
            decreases sorted@.len() - i,
        {
            i = i + 1;
        }
        proof {
            lemma_first_shorter(sv, key as int, 0, i as int);
        }
        sorted.insert(i, item);
        proof {
            let s1 = input.subrange(0, k + 1);
            assert(s1.drop_last() =~= input.subrange(0, k));
            assert(s1.last() == target_level_view(item));
            assert(sorted@.map_values(|t: TargetLevel| target_level_view(t)) =~= sv.insert(
                i as int,
                target_level_view(item),
            ));
            let rm = rest@.map_values(|t: TargetLevel| target_level_view(t));
            assert forall|j: int| 0 <= j < rest@.len() implies #[trigger] rm[j] == input.subrange(k + 1, n as int)[j] by {
                assert(rest@[j] == rv[j + 1]);
                assert(rv.map_values(|t: TargetLevel| target_level_view(t))[j + 1] == input.subrange(k, n as int)[j + 1]);
            }
            assert(rest@.map_values(|t: TargetLevel| target_level_view(t)) =~= input.subrange(k + 1, n as int));
        }
    }
    proof {
        assert(input.subrange(0, n as int) =~= input);
    }
    sorted
}

impl Log {
    pub closed spec fn spec_default_level(&self) -> LevelFilter {
        self.default_level
    }

    pub closed spec fn spec_log_levels(&self) -> Seq<(Seq<char>, LevelFilter)> {
        self.log_levels@.map_values(|t: TargetLevel| target_level_view(t))
    }

    pub closed spec fn spec_loggers(&self) -> Seq<Logger> {
        self.loggers@
    }

    /// Everything at the Trace level and below, to no destination.
    pub fn new() -> (r: Log)
        ensures
            r.spec_default_level() == LevelFilter::Trace,
            r.spec_log_levels() == Seq::<(Seq<char>, LevelFilter)>::empty(),
            r.spec_loggers() == Seq::<Logger>::empty(),
    {
        let r = Log { default_level: LevelFilter::Trace, log_levels: Vec::new(), loggers: Vec::new() };
        assert(r.spec_log_levels() =~= Seq::<(Seq<char>, LevelFilter)>::empty());
        r
    }

    /// Set the default log level, if no other filters match.
    pub fn set_default_level(&mut self, level: LevelFilter)
        ensures
            final(self).spec_default_level() == level,
            final(self).spec_log_levels() == old(self).spec_log_levels(),
            final(self).spec_loggers() == old(self).spec_loggers(),
    {
        self.default_level = level;
    }

    /// Accepts log level filters in a comma-separated list, of which the
    /// elements are either a plain level (to use as the default level) or a
    /// pair `target_prefix=level`. The target levels are kept longest prefix
    /// first. If any level does not parse, nothing changes.
    pub fn set_log_levels(&mut self, filter_string: &str) -> (r: Result<(), ()>)
        ensures
            final(self).spec_loggers() == old(self).spec_loggers(),
            match parse_filters(pieces_from(filter_string@, 0, ','), 0, LevelFilter::Off, seq![]) {
                None => r is Err && final(self).spec_default_level() == old(self).spec_default_level()
                    && final(self).spec_log_levels() == old(self).spec_log_levels(),
                Some((default, levels)) => r is Ok && final(self).spec_default_level() == default
                    && final(self).spec_log_levels() == sorted_by_length(levels),
            },
    {
        let chars = chars_of(filter_string);
        let pieces = split_pieces(chars.as_slice(), ',');
        let ghost ps = pieces@.map_values(|v: Vec<char>| v@);
        let mut default_level = LevelFilter::Off;
        let mut levels: Vec<TargetLevel> = Vec::new();
        let mut i: usize = 0;
        assert(levels@.map_values(|t: TargetLevel| target_level_view(t)) =~= seq![]);
        while i < pieces.len()
            invariant
                i <= pieces@.len(),
                ps == pieces@.map_values(|v: Vec<char>| v@),
                ps == pieces_from(filter_string@, 0, ','),
                parse_filters(ps, 0, LevelFilter::Off, seq![]) == parse_filters(
                    ps,
                    i as int,
                    default_level,
                    levels@.map_values(|t: TargetLevel| target_level_view(t)),
                ),
            decreases pieces@.len() - i,
        {
            let p = pieces[i].as_slice();
            assert(p@ == ps[i as int]);
            let j = find_sep(p, 0, '=');
            if j < p.len() {
                let target = copy_range(p, 0, j);
                let name = copy_range(p, j + 1, p.len());
                match parse_level_filter(name.as_slice()) {
                    None => {
                        return Err(());
                    },
                    Some(level) => {
                        let ghost before = levels@.map_values(|t: TargetLevel| target_level_view(t));
                        levels.push((target, level));
                        assert(levels@.map_values(|t: TargetLevel| target_level_view(t)) =~= before.push(
                            (p@.subrange(0, j as int), level),
                        ));
                    },
                }
            } else {
                match parse_level_filter(p) {
                    None => {
                        return Err(());
                    },
                    Some(level) => {
                        default_level = level;
                    },
                }
            }
            i = i + 1;
        }
        self.default_level = default_level;
        self.log_levels = sort_by_length(levels);
        Ok(())
    }

    /// Whether a message of `level` for `target` passes: the level of the
    /// first target prefix that starts `target`, else the default level,
    /// must be at least as verbose.
    pub fn enabled(&self, target: &[char], level: LevelFilter) -> (r: bool)
        ensures
            r == (level_rank(level) <= level_rank(
                max_level_from(self.spec_log_levels(), 0, self.spec_default_level(), target@),
            )),
    {
        let ghost lv = self.spec_log_levels();
        let mut max = self.default_level;
        let mut i: usize = 0;
        let mut found = false;
        while i < self.log_levels.len() && !found
            invariant
                i <= self.log_levels@.len(),
                lv == self.log_levels@.map_values(|t: TargetLevel| target_level_view(t)),
                !found ==> max_level_from(lv, 0, self.default_level, target@) == max_level_from(
                    lv,
                    i as int,
                    self.default_level,
                    target@,
                ),
                found ==> max == max_level_from(lv, 0, self.default_level, target@),
                !found ==> max == self.default_level,
            decreases self.log_levels@.len() - i + if found { 0int } else { 1int },
        {
            let prefix = self.log_levels[i].0.as_slice();
            assert(prefix@ == lv[i as int].0);
            if prefix_of(prefix, target) {
                max = self.log_levels[i].1;
                found = true;
            } else {
                i = i + 1;
            }
        }
        rank(level) <= rank(max)
    }

    /// The destinations, in the order they were added.
    pub fn loggers(&self) -> (r: &[Logger])
        ensures
            r@ == self.spec_loggers(),
    {
        self.loggers.as_slice()
    }

    /// Add a logger to the list of loggers.
    pub fn add_logger(&mut self, logger: Logger)
        ensures
            final(self).spec_default_level() == old(self).spec_default_level(),
            final(self).spec_log_levels() == old(self).spec_log_levels(),
            final(self).spec_loggers() == old(self).spec_loggers().push(logger),
    {
        self.loggers.push(logger);
    }
}

} // verus!
