//! The configuration of the hooks, built once from the values of three
//! environment variables.

use crate::sorted::{increasing, insert_sorted, lemma_sorted_once, sorted_once, texts};
use crate::util::is_decimal_char;
use vstd::prelude::*;
use vstd::string::*;

verus! {

/// Name of the variable that lists the tracked hosts, separated by colons.
pub const HOSTS_VARIABLE: &'static str = "PRELOAD_LATENCY_HOSTS";

/// Name of the variable that gives the injected delay in milliseconds.
pub const MILLIS_VARIABLE: &'static str = "PRELOAD_LATENCY_MILLIS";

/// Name of the variable whose presence asks for eager resolution.
pub const RESOLVE_VARIABLE: &'static str = "PRELOAD_LATENCY_RESOLVE";

/// Delay, in milliseconds, that applies when none is configured.
pub const DEFAULT_SLEEP_MILLIS: u32 = 200;

/// Mathematical model of a configuration.
pub struct ConfigView {
    /// The tracked host names in increasing order, each once. None at all
    /// means that every host is tracked.
    pub hosts: Seq<Seq<char>>,
    /// Delay before each intercepted I/O call, in milliseconds.
    pub sleep_duration_millis: nat,
    /// Whether the tracked hosts are resolved when the hooks are set up.
    pub resolve_eagerly: bool,
}

/// Configuration options for the hooks.
pub struct HookConfig {
    hosts: Vec<String>,
    sleep_duration_millis: u32,
    resolve_eagerly: bool,
}

/// The pieces of `s` between its colons, empty ones included.
pub open spec fn split_at_colons(s: Seq<char>) -> Seq<Seq<char>>
    decreases s.len(),
{
    if s.len() == 0 {
        seq![Seq::empty()]
    } else {
        let before = split_at_colons(s.drop_last());
        if s.last() == ':' {
            before.push(Seq::empty())
        } else {
            before.drop_last().push(before.last().push(s.last()))
        }
    }
}

/// The pieces `pieces` put together again, with a colon between neighbours.
pub open spec fn joined_with_colons(pieces: Seq<Seq<char>>) -> Seq<char>
    decreases pieces.len(),
{
    if pieces.len() == 0 {
        Seq::empty()
    } else if pieces.len() == 1 {
        pieces[0]
    } else {
        joined_with_colons(pieces.drop_last()) + seq![':'] + pieces.last()
    }
}

/// The host list that the value of the host variable stands for: its pieces
/// in increasing order, each once. An unset or empty value names no host.
pub open spec fn host_list(value: Option<Seq<char>>) -> Seq<Seq<char>> {
    match value {
        Some(s) if s.len() > 0 => sorted_once(split_at_colons(s)),
        _ => Seq::empty(),
    }
}

/// The number that a string of decimal digits denotes.
pub open spec fn decimal_value(digits: Seq<char>) -> nat
    decreases digits.len(),
{
    if digits.len() == 0 {
        0
    } else {
        10 * decimal_value(digits.drop_last()) + (digits.last() as nat - '0' as nat) as nat
    }
}

/// What is left of `s` after one leading plus sign, if it has one.
pub open spec fn without_sign(s: Seq<char>) -> Seq<char> {
    if s.len() > 0 && s[0] == '+' {
        s.skip(1)
    } else {
        s
    }
}

/// The number that `s` denotes: an optional plus sign followed by one or
/// more decimal digits whose value fits in 32 bits. Anything else denotes
/// no number.
pub open spec fn parse_decimal(s: Seq<char>) -> Option<nat> {
    let digits = without_sign(s);
    if digits.len() > 0 && (forall|i: int| 0 <= i < digits.len() ==> is_decimal_char(digits[i]))
        && decimal_value(digits) <= u32::MAX {
        Some(decimal_value(digits))
    } else {
        None
    }
}

/// The delay that the value of the delay variable stands for.
pub open spec fn sleep_millis(value: Option<Seq<char>>) -> nat {
    match value {
        Some(s) if parse_decimal(s) is Some => parse_decimal(s)->0,
        _ => DEFAULT_SLEEP_MILLIS as nat,
    }
}

/// The text of the value of a variable, where the variable is set.
pub open spec fn text_of(value: Option<&str>) -> Option<Seq<char>> {
    match value {
        Some(s) => Some(s@),
        None => None,
    }
}

/// The configuration that the three variables stand for.
pub open spec fn loaded(
    hosts: Option<Seq<char>>,
    millis: Option<Seq<char>>,
    resolve: bool,
) -> ConfigView {
    ConfigView {
        hosts: host_list(hosts),
        sleep_duration_millis: sleep_millis(millis),
        resolve_eagerly: resolve,
    }
}

/// The names to resolve at set-up: every listed host followed by `:80` where
/// eager resolution is asked for, and nothing otherwise.
pub open spec fn resolution_targets(config: ConfigView) -> Seq<Seq<char>> {
    if config.resolve_eagerly {
        config.hosts.map_values(|host: Seq<char>| host + seq![':', '8', '0'])
    } else {
        Seq::empty()
    }
}

/// The content of a configuration slot after an attempt to initialise it with
/// `fresh`: the first configuration stays.
pub open spec fn initialized(slot: Option<ConfigView>, fresh: ConfigView) -> Option<ConfigView> {
    match slot {
        Some(config) => Some(config),
        None => Some(fresh),
    }
}

/// The model of what a configuration slot holds.
pub open spec fn slot_view(slot: Option<HookConfig>) -> Option<ConfigView> {
    match slot {
        Some(config) => Some(config@),
        None => None,
    }
}

impl View for HookConfig {
    type V = ConfigView;

    closed spec fn view(&self) -> ConfigView {
        ConfigView {
            hosts: texts(self.hosts@),
            sleep_duration_millis: self.sleep_duration_millis as nat,
            resolve_eagerly: self.resolve_eagerly,
        }
    }
}

/// Reads a colon-separated host list.
fn parse_hosts(value: &str) -> (hosts: Vec<String>)
    ensures
        texts(hosts@) == sorted_once(split_at_colons(value@)),
{
    let total = value.unicode_len();
    let mut hosts: Vec<String> = Vec::new();
    let ghost mut done: Seq<Seq<char>> = Seq::empty();
    let mut start: usize = 0;
    let mut i: usize = 0;
    assert(texts(hosts@) =~= sorted_once(done));
    assert(value@.take(0) =~= Seq::<char>::empty());
    assert(split_at_colons(value@.take(0)) =~= done.push(value@.subrange(0, 0)));
    for c in it: value.chars()
        invariant
            total == value@.len(),
            it.seq() == value@,
            i == it.index(),
            start <= i,
            texts(hosts@) == sorted_once(done),
            split_at_colons(value@.take(i as int)) == done.push(
                value@.subrange(start as int, i as int),
            ),
    {
        let ghost pending = value@.subrange(start as int, i as int);
        assert(value@.take(i + 1).drop_last() =~= value@.take(i as int));
        assert(done.push(pending).drop_last() =~= done);
        if c == ':' {
            insert_sorted(&mut hosts, value.substring_char(start, i));
            proof {
                done = done.push(pending);
            }
            start = i + 1;
            assert(value@.subrange(start as int, i + 1) =~= Seq::<char>::empty());
        } else {
            assert(value@.subrange(start as int, i + 1) =~= pending.push(c));
        }
        i = i + 1;
    }
    assert(value@.take(i as int) =~= value@);
    insert_sorted(&mut hosts, value.substring_char(start, total));
    proof {
        let last = value@.subrange(start as int, total as int);
        assert(done.push(last).drop_last() =~= done);
    }
    hosts
}

/// A longer string of digits denotes no smaller a number than its beginning.
proof fn lemma_decimal_value_grows(digits: Seq<char>, n: int)
    requires
        0 <= n <= digits.len(),
    ensures
        decimal_value(digits.take(n)) <= decimal_value(digits),
    decreases digits.len(),
{
    if n < digits.len() {
        assert(digits.drop_last().take(n) =~= digits.take(n));
        lemma_decimal_value_grows(digits.drop_last(), n);
    } else {
        assert(digits.take(n) =~= digits);
    }
}

/// Reads a delay in milliseconds.
fn parse_millis(value: &str) -> (millis: Option<u32>)
    ensures
        millis is Some <==> parse_decimal(value@) is Some,
        millis is Some ==> millis->0 == parse_decimal(value@)->0,
{
    let total = value.unicode_len();
    let signed = total > 0 && value.get_char(0) == '+';
    let digits = if signed {
        value.substring_char(1, total)
    } else {
        value
    };
    assert(digits@ =~= without_sign(value@));
    let count = digits.unicode_len();
    if count == 0 {
        return None;
    }
    let mut number: u64 = 0;
    let mut i: usize = 0;
    assert(digits@.take(0) =~= Seq::<char>::empty());
    for c in it: digits.chars()
        invariant
            count == digits@.len(),
            digits@ == without_sign(value@),
            it.seq() == digits@,
            i == it.index(),
            forall|j: int| 0 <= j < i ==> is_decimal_char(digits@[j]),
            number == decimal_value(digits@.take(i as int)),
            number <= u32::MAX,
    {
        assert(digits@.take(i + 1).drop_last() =~= digits@.take(i as int));
        if !('0' <= c && c <= '9') {
            return None;
        }
        number = 10 * number + (c as u64 - '0' as u64);
        if number > 0xffff_ffff {
            proof {
                lemma_decimal_value_grows(digits@, i + 1);
            }
            return None;
        }
        i = i + 1;
    }
    assert(digits@.take(i as int) =~= digits@);
    Some(number as u32)
}

impl HookConfig {
    /// The hosts are listed in increasing order, each once.
    #[verifier::type_invariant]
    spec fn hosts_are_sorted(self) -> bool {
        increasing(texts(self.hosts@))
    }

    /// Builds the configuration from the values of the three variables:
    /// `hosts` and `millis` are the values of the host and delay variables,
    /// where they are set, and `resolve` tells whether the resolve variable
    /// is set.
    ///
    /// An unset or empty host list tracks every host. A delay that is unset
    /// or is no number gives the default delay.
    pub fn load(hosts: Option<&str>, millis: Option<&str>, resolve: bool) -> (config: Self)
        ensures
            config@ == loaded(text_of(hosts), text_of(millis), resolve),
    {
        let list = match hosts {
            Some(value) => {
                if value.unicode_len() > 0 {
                    proof {
                        lemma_sorted_once(split_at_colons(value@));
                    }
                    parse_hosts(value)
                } else {
                    Vec::new()
                }
            },
            None => Vec::new(),
        };
        let parsed = match millis {
            Some(value) => parse_millis(value),
            None => None,
        };
        let sleep_duration_millis = match parsed {
            Some(number) => number,
            None => DEFAULT_SLEEP_MILLIS,
        };
        let config = HookConfig { hosts: list, sleep_duration_millis, resolve_eagerly: resolve };
        assert(config@.hosts =~= host_list(text_of(hosts)));
        config
    }

    /// Sets the configuration up on first use: an empty `slot` receives the
    /// configuration that the three variables stand for, a filled one is
    /// left as it is, whatever the variables now hold.
    pub fn initialize(
        slot: &mut Option<HookConfig>,
        hosts: Option<&str>,
        millis: Option<&str>,
        resolve: bool,
    )
        ensures
            *old(slot) is Some ==> *final(slot) == *old(slot),
            slot_view(*final(slot)) == initialized(
                slot_view(*old(slot)),
                loaded(text_of(hosts), text_of(millis), resolve),
            ),
    {
        if slot.is_none() {
            *slot = Some(HookConfig::load(hosts, millis, resolve));
        }
    }

    /// Lists what is to be resolved at set-up, so that the addresses of the
    /// tracked hosts are known before the first connection: each listed host
    /// with port 80, or nothing unless eager resolution is asked for.
    pub fn maybe_proactively_resolve_hosts(&self) -> (targets: Vec<String>)
        ensures
            texts(targets@) == resolution_targets(self@),
    {
        let mut targets: Vec<String> = Vec::new();
        if self.resolve_eagerly {
            let mut i: usize = 0;
            while i < self.hosts.len()
                invariant
                    i <= self.hosts@.len(),
                    self.resolve_eagerly,
                    targets@.len() == i,
                    texts(targets@) == resolution_targets(self@).take(i as int),
                decreases self.hosts@.len() - i,
            {
                let mut target = self.hosts[i].clone();
                proof {
                    reveal_strlit(":80");
                }
                target.append(":80");
                targets.push(target);
                proof {
                    let wanted = resolution_targets(self@);
                    assert(":80"@ =~= seq![':', '8', '0']);
                    assert(texts(targets@)[i as int] == wanted[i as int]);
                    assert forall|j: int| 0 <= j < i implies texts(targets@)[j] == wanted[j] by {
                        assert(texts(targets@)[j] == wanted.take(i as int)[j]);
                    }
                    assert(texts(targets@) =~= wanted.take(i + 1));
                }
                i = i + 1;
            }
            assert(resolution_targets(self@).take(i as int) =~= resolution_targets(self@));
        }
        targets
    }

    /// The delay before each intercepted I/O call, in microseconds.
    pub fn sleep_duration(&self) -> (micros: u64)
        ensures
            micros == self@.sleep_duration_millis * 1000,
    {
        self.sleep_duration_millis as u64 * 1000
    }

    /// The delay before each intercepted I/O call, in milliseconds.
    pub fn sleep_duration_millis(&self) -> (millis: u32)
        ensures
            millis == self@.sleep_duration_millis,
    {
        self.sleep_duration_millis
    }

    /// Whether the tracked hosts are to be resolved at set-up.
    pub fn resolve_eagerly(&self) -> (eager: bool)
        ensures
            eager == self@.resolve_eagerly,
    {
        self.resolve_eagerly
    }

    /// The listed hosts in increasing order, each once. An empty list means
    /// that every host is tracked.
    pub fn hosts(&self) -> (hosts: &Vec<String>)
        ensures
            texts(hosts@) == self@.hosts,
            increasing(texts(hosts@)),
    {
        proof {
            use_type_invariant(self);
        }
        &self.hosts
    }
}

/// Splitting at colons gives at least one piece, leaves no colon in any
/// piece, and loses nothing: the pieces joined with colons are the text.
pub proof fn lemma_split_at_colons(s: Seq<char>)
    ensures
        split_at_colons(s).len() >= 1,
        forall|i: int, j: int|
            0 <= i < split_at_colons(s).len() && 0 <= j < split_at_colons(s)[i].len()
                ==> split_at_colons(s)[i][j] != ':',
        joined_with_colons(split_at_colons(s)) == s,
    decreases s.len(),
{
    if s.len() > 0 {
        let before = split_at_colons(s.drop_last());
        lemma_split_at_colons(s.drop_last());
        let pieces = split_at_colons(s);
        if s.last() == ':' {
            assert(pieces.drop_last() =~= before);
            assert(joined_with_colons(pieces) =~= s);
        } else {
            let grown = before.last().push(s.last());
            if before.len() == 1 {
                assert(joined_with_colons(pieces) =~= s);
            } else {
                assert(pieces.drop_last() =~= before.drop_last());
                assert(joined_with_colons(pieces) =~= joined_with_colons(before).push(s.last()));
                assert(joined_with_colons(pieces) =~= s);
            }
        }
    } else {
        assert(joined_with_colons(split_at_colons(s)) =~= s);
    }
}

/// A host list is in increasing order, holds no host twice, and holds
/// exactly the pieces of the value it stands for.
pub proof fn lemma_host_list(value: Seq<char>)
    requires
        value.len() > 0,
    ensures
        increasing(host_list(Some(value))),
        host_list(Some(value)).no_duplicates(),
        forall|host: Seq<char>|
            host_list(Some(value)).contains(host) <==> split_at_colons(value).contains(host),
{
    lemma_sorted_once(split_at_colons(value));
}

/// Initialising twice gives what initialising once gave: the configuration
/// of the first call stays, whatever the second call brings.
pub proof fn lemma_initialize_is_idempotent(
    slot: Option<ConfigView>,
    first: ConfigView,
    second: ConfigView,
)
    ensures
        initialized(initialized(slot, first), second) == initialized(slot, first),
        slot is None ==> initialized(initialized(slot, first), second) == Some(first),
{
}

} // verus!
