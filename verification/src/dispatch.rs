//! The dispatch engine: rules, their timers, and the per-event decisions.
//!
//! The engine is driven from outside: the caller hands it each filtered
//! event together with `now` on its monotonic clock, asks which paths need
//! new watch subscriptions, waits out [`Dispatcher::calculate_timeout`], and
//! runs the commands of the rules [`Dispatcher::take_expired`] hands back, in
//! declaration order.

use vstd::prelude::*;
use vstd::pervasive::VecAdditionalExecFns;

use crate::command::{CommandSpec, CommandToRun, ConfigError};
use crate::debounce::{DebounceTimer, DebounceTimerSet};
use crate::event::{Event, EventKind, should_event_trigger, spec_should_trigger};
use crate::glob::{CompileError, glob_error, glob_ok};
use crate::glob_watcher::{GlobWatcher, all_globs_ok, any_file_matches};
use crate::paths::{abs_comps, clone_bytes, is_abs_path};

verus! {

broadcast use crate::views::lemma_bytes_deep_view, crate::views::lemma_comps_deep_view;

/// One rule as configured: a command, its globs, whether to skip ignore
/// files, and the debounce window.
pub struct RuleConfig {
    /// The command to run when the rule fires.
    pub command_to_run: CommandToRun,
    /// The glob patterns the rule watches.
    pub globs: Vec<Vec<u8>>,
    /// Whether the initial enumeration skips ignore files.
    pub skip_ignore_files: bool,
    /// The debounce window, in milliseconds.
    pub debounce_ms: u64,
}

/// One live rule: the built command and the compiled glob set.
pub struct Rule {
    /// What to execute when the rule fires.
    pub command: CommandSpec,
    /// The compiled globs and watch roots.
    pub watcher: GlobWatcher,
}

/// The engine: every rule, and one timer per rule in declaration order.
pub struct Dispatcher {
    /// The rules, in declaration order.
    pub rules: Vec<Rule>,
    /// The rules' timers; entry `i` belongs to rule `i`.
    pub timers: DebounceTimerSet,
}

/// The error of the first glob that does not compile.
pub open spec fn globs_first_error(globs: Seq<Seq<u8>>, cwd: Seq<u8>) -> CompileError
    decreases globs.len(),
{
    if globs.len() == 0 {
        arbitrary()
    } else if !glob_ok(abs_comps(globs[0], cwd)) {
        glob_error(abs_comps(globs[0], cwd))
    } else {
        globs_first_error(globs.skip(1), cwd)
    }
}

/// The first bad glob decides the reported error.
pub proof fn lemma_globs_first_error_at(globs: Seq<Seq<u8>>, cwd: Seq<u8>, i: int)
    requires
        0 <= i < globs.len(),
        !glob_ok(abs_comps(globs[i], cwd)),
        forall|j: int| 0 <= j < i ==> glob_ok(abs_comps(#[trigger] globs[j], cwd)),
    ensures
        globs_first_error(globs, cwd) == glob_error(abs_comps(globs[i], cwd)),
    decreases i,
{
    if i > 0 {
        assert forall|j: int|
            0 <= j < i - 1 implies glob_ok(abs_comps(#[trigger] globs.skip(1)[j], cwd)) by {
            assert(globs.skip(1)[j] == globs[j + 1]);
        }
        assert(globs.skip(1)[i - 1] == globs[i]);
        lemma_globs_first_error_at(globs.skip(1), cwd, i - 1);
    }
}

impl RuleConfig {
    /// The configuration can be built: the command names a program, there is
    /// at least one glob, and every glob compiles.
    pub open spec fn valid(&self, cwd: Seq<u8>) -> bool {
        &&& self.command_to_run.spec_words() matches Some(ws) && ws.len() > 0
        &&& self.globs@.len() > 0
        &&& all_globs_ok(self.globs.deep_view(), cwd)
    }

    /// The error an invalid configuration is rejected with: the command is
    /// checked first, then that globs exist, then each glob in order.
    pub open spec fn spec_error(&self, cwd: Seq<u8>) -> ConfigError {
        if !(self.command_to_run.spec_words() matches Some(ws) && ws.len() > 0) {
            ConfigError::NoCommand
        } else if self.globs@.len() == 0 {
            ConfigError::NoGlobs
        } else {
            ConfigError::Glob(globs_first_error(self.globs.deep_view(), cwd))
        }
    }
}

impl Rule {
    /// The rule is the compilation of one configuration.
    pub open spec fn models_config(&self, c: RuleConfig, cwd: Seq<u8>) -> bool {
        &&& c.command_to_run.spec_words() matches Some(ws) && self.command.program@ == ws[0]
            && self.command.args.deep_view() == ws.skip(1)
        &&& self.watcher.models(c.globs.deep_view(), cwd)
        &&& self.watcher.read_ignores == !c.skip_ignore_files
    }
}

/// A rule is hit by an event when some path the event names satisfies some
/// of the rule's file matchers.
pub open spec fn rule_hit(r: Rule, ev: Event) -> bool {
    exists|p: int|
        0 <= p < ev.paths@.len() && any_file_matches(r.watcher.patterns@, #[trigger] ev.paths@[p]@)
}

/// Whether some path of the event satisfies some file matcher of the rule.
fn rule_event_hit(r: &Rule, event: &Event) -> (hit: bool)
    ensures
        hit == rule_hit(*r, *event),
{
    let mut p: usize = 0;
    while p < event.paths.len()
        invariant
            p <= event.paths@.len(),
            forall|q: int|
                0 <= q < p ==> !any_file_matches(r.watcher.patterns@, (
                #[trigger] event.paths@[q])@),
        decreases event.paths@.len() - p,
    {
        if r.watcher.matches(&event.paths[p], false) {
            return true;
        }
        p += 1;
    }
    false
}

/// The timer as it stands after a qualifying hit at `now`: a stopped timer
/// is anchored at `now`, a running one is unchanged.
pub open spec fn spec_started(t: DebounceTimer, now: u64) -> DebounceTimer {
    DebounceTimer {
        start: if t.start is None {
            Some(now)
        } else {
            t.start
        },
        duration: t.duration,
    }
}

/// The timer stopped, its window kept.
pub open spec fn spec_stopped(t: DebounceTimer) -> DebounceTimer {
    DebounceTimer { start: None, duration: t.duration }
}

impl Dispatcher {
    /// One timer per rule.
    pub open spec fn wf(&self) -> bool {
        self.timers.timers@.len() == self.rules@.len()
    }

    /// No timer started in the future of `now`.
    pub open spec fn started_by(&self, now: u64) -> bool {
        self.timers.all_started_by(now)
    }

    /// Builds the engine from the configured rules: each command is built,
    /// each glob set compiled, and each timer starts stopped with its rule's
    /// window. The first invalid configuration aborts construction with its
    /// error.
    pub fn new(configs: &Vec<RuleConfig>, cwd: &Vec<u8>) -> (r: Result<Dispatcher, ConfigError>)
        requires
            is_abs_path(cwd@),
            configs@.len() > 0,
        ensures
            r is Ok <==> (forall|i: int| 0 <= i < configs@.len() ==> (#[trigger] configs@[i]).valid(
                cwd@,
            )),
            r matches Ok(d) ==> {
                &&& d.wf()
                &&& d.rules@.len() == configs@.len()
                &&& forall|i: int|
                    0 <= i < configs@.len() ==> (#[trigger] d.rules@[i]).models_config(
                        configs@[i],
                        cwd@,
                    )
                &&& forall|i: int|
                    0 <= i < configs@.len() ==> (#[trigger] d.timers.timers@[i]).start is None
                        && d.timers.timers@[i].duration == configs@[i].debounce_ms
            },
            r matches Err(e) ==> (exists|i: int|
                0 <= i < configs@.len() && !(#[trigger] configs@[i]).valid(cwd@) && (forall|j: int|
                    0 <= j < i ==> configs@[j].valid(cwd@)) && e == configs@[i].spec_error(cwd@)),
    {
        let mut rules: Vec<Rule> = Vec::new();
        let mut timers: Vec<DebounceTimer> = Vec::new();
        let mut i: usize = 0;
        while i < configs.len()
            invariant
                i <= configs@.len(),
                is_abs_path(cwd@),
                rules@.len() == i,
                timers@.len() == i,
                forall|j: int| 0 <= j < i ==> (#[trigger] configs@[j]).valid(cwd@),
                forall|j: int|
                    0 <= j < i ==> (#[trigger] rules@[j]).models_config(configs@[j], cwd@),
                forall|j: int|
                    0 <= j < i ==> (#[trigger] timers@[j]).start is None && timers@[j].duration
                        == configs@[j].debounce_ms,
            decreases configs@.len() - i,
        {
            let c = &configs[i];
            let command = match c.command_to_run.to_command() {
                Ok(command) => command,
                Err(e) => {
                    proof {
                        assert(!configs@[i as int].valid(cwd@));
                        assert(configs@[i as int].spec_error(cwd@) == ConfigError::NoCommand);
                    }
                    return Err(e);
                },
            };
            if c.globs.len() == 0 {
                proof {
                    assert(!configs@[i as int].valid(cwd@));
                }
                return Err(ConfigError::NoGlobs);
            }
            let watcher = match GlobWatcher::from_patterns(&c.globs, !c.skip_ignore_files, cwd) {
                Ok(watcher) => watcher,
                Err(ce) => {
                    proof {
                        assert(!all_globs_ok(c.globs.deep_view(), cwd@));
                        assert(!configs@[i as int].valid(cwd@));
                        let globs = c.globs.deep_view();
                        let bad = choose|b: int|
                            0 <= b < globs.len() && !glob_ok(
                                abs_comps(#[trigger] globs[b], cwd@),
                            ) && (forall|j: int|
                                0 <= j < b ==> glob_ok(abs_comps(#[trigger] globs[j], cwd@)))
                                && ce == glob_error(abs_comps(globs[b], cwd@));
                        lemma_globs_first_error_at(globs, cwd@, bad);
                    }
                    return Err(ConfigError::Glob(ce));
                },
            };
            rules.push(Rule { command, watcher });
            timers.push(DebounceTimer::new(c.debounce_ms));
            i += 1;
        }
        Ok(Dispatcher { rules, timers: DebounceTimerSet { timers } })
    }

    /// Feeds one event through the engine at instant `now`.
    ///
    /// A dropped kind (access, metadata-only modification) changes nothing
    /// and asks for nothing. Otherwise every rule that the event hits has
    /// its timer anchored, running timers staying anchored at their first
    /// event, and for a creation the caller is asked to extend watch
    /// coverage to every named path that still exists.
    pub fn handle_event(&mut self, event: &Event, now: u64) -> (to_watch: Vec<Vec<u8>>)
        requires
            old(self).wf(),
            old(self).started_by(now),
        ensures
            final(self).wf(),
            final(self).started_by(now),
            final(self).rules@ == old(self).rules@,
            final(self).timers.timers@.len() == old(self).timers.timers@.len(),
            forall|i: int|
                0 <= i < old(self).timers.timers@.len()
                    ==> #[trigger] final(self).timers.timers@[i] == (if spec_should_trigger(
                    event.kind,
                ) && rule_hit(old(self).rules@[i], *event) {
                    spec_started(old(self).timers.timers@[i], now)
                } else {
                    old(self).timers.timers@[i]
                }),
            to_watch.deep_view() == (if spec_should_trigger(event.kind) && event.kind is Create {
                event.paths.deep_view()
            } else {
                Seq::<Seq<u8>>::empty()
            }),
    {
        if !should_event_trigger(event) {
            let empty: Vec<Vec<u8>> = Vec::new();
            proof {
                assert(empty.deep_view() =~~= Seq::<Seq<u8>>::empty());
            }
            return empty;
        }
        let to_watch: Vec<Vec<u8>> = if matches!(event.kind, EventKind::Create) {
            let mut copy: Vec<Vec<u8>> = Vec::new();
            let mut p: usize = 0;
            while p < event.paths.len()
                invariant
                    p <= event.paths@.len(),
                    copy.deep_view() == event.paths.deep_view().take(p as int),
                decreases event.paths@.len() - p,
            {
                copy.push(clone_bytes(&event.paths[p]));
                proof {
                    assert(copy.deep_view() =~~= event.paths.deep_view().take(p + 1));
                }
                p += 1;
            }
            proof {
                assert(event.paths.deep_view().take(event.paths@.len() as int)
                    =~~= event.paths.deep_view());
            }
            copy
        } else {
            let empty: Vec<Vec<u8>> = Vec::new();
            proof {
                assert(empty.deep_view() =~~= Seq::<Seq<u8>>::empty());
            }
            empty
        };
        let ghost rules0 = self.rules@;
        let ghost timers0 = self.timers.timers@;
        let mut i: usize = 0;
        while i < self.rules.len()
            invariant
                i <= rules0.len(),
                self.rules@ == rules0,
                self.timers.timers@.len() == rules0.len(),
                spec_should_trigger(event.kind),
                forall|j: int|
                    0 <= j < i ==> #[trigger] self.timers.timers@[j] == (if rule_hit(
                        rules0[j],
                        *event,
                    ) {
                        spec_started(timers0[j], now)
                    } else {
                        timers0[j]
                    }),
                forall|j: int|
                    i <= j < rules0.len() ==> #[trigger] self.timers.timers@[j] == timers0[j],
                forall|j: int|
                    0 <= j < rules0.len() ==> (#[trigger] timers0[j]).started_by(now),
            decreases rules0.len() - i,
        {
            let hit = rule_event_hit(&self.rules[i], event);
            if hit {
                let mut t = self.timers.timers[i];
                t.start_if_stopped(now);
                self.timers.timers.set(i, t);
            }
            i += 1;
        }
        proof {
            assert forall|j: int|
                0 <= j < self.timers.timers@.len() implies (
            #[trigger] self.timers.timers@[j]).started_by(now) by {}
        }
        to_watch
    }

    /// Stops every timer whose deadline has been reached or passed and
    /// hands back their rules' indices in declaration order; the caller runs those rules'
    /// commands, one after the other, in exactly that order.
    pub fn take_expired(&mut self, now: u64) -> (due: Vec<usize>)
        requires
            old(self).wf(),
            old(self).started_by(now),
        ensures
            final(self).wf(),
            final(self).started_by(now),
            final(self).rules@ == old(self).rules@,
            final(self).timers.timers@.len() == old(self).timers.timers@.len(),
            forall|i: int|
                0 <= i < old(self).timers.timers@.len()
                    ==> #[trigger] final(self).timers.timers@[i] == (if old(
                    self,
                ).timers.timers@[i].spec_expired(now) {
                    spec_stopped(old(self).timers.timers@[i])
                } else {
                    old(self).timers.timers@[i]
                }),
            forall|j: usize|
                j < old(self).timers.timers@.len() ==> (due@.contains(j) <==> old(
                    self,
                ).timers.timers@[j as int].spec_expired(now)),
            forall|k: int| 0 <= k < due@.len() ==> (#[trigger] due@[k]) < old(
                self,
            ).timers.timers@.len(),
            forall|k1: int, k2: int| 0 <= k1 < k2 < due@.len() ==> due@[k1] < due@[k2],
    {
        let ghost rules0 = self.rules@;
        let ghost timers0 = self.timers.timers@;
        let mut due: Vec<usize> = Vec::new();
        let mut i: usize = 0;
        while i < self.timers.timers.len()
            invariant
                i <= timers0.len(),
                self.rules@ == rules0,
                self.timers.timers@.len() == timers0.len(),
                forall|j: int|
                    0 <= j < i ==> #[trigger] self.timers.timers@[j] == (if timers0[j].spec_expired(
                        now,
                    ) {
                        spec_stopped(timers0[j])
                    } else {
                        timers0[j]
                    }),
                forall|j: int|
                    i <= j < timers0.len() ==> #[trigger] self.timers.timers@[j] == timers0[j],
                forall|j: int|
                    0 <= j < timers0.len() ==> (#[trigger] timers0[j]).started_by(now),
                forall|j: usize|
                    j < i ==> (due@.contains(j) <==> timers0[j as int].spec_expired(now)),
                forall|k: int| 0 <= k < due@.len() ==> (#[trigger] due@[k]) < i,
                forall|k1: int, k2: int| 0 <= k1 < k2 < due@.len() ==> due@[k1] < due@[k2],
            decreases timers0.len() - i,
        {
            let expired = self.timers.timers[i].expired(now);
            if expired {
                let mut t = self.timers.timers[i];
                t.stop();
                self.timers.timers.set(i, t);
                let ghost pre = due@;
                due.push(i);
                proof {
                    assert forall|j: usize|
                        j < i + 1 implies (due@.contains(j) <==> timers0[j as int].spec_expired(
                        now,
                    )) by {
                        if due@.contains(j) {
                            let k = choose|k: int| 0 <= k < due@.len() && due@[k] == j;
                            if k < pre.len() {
                                assert(pre[k] == j);
                                assert(pre.contains(j));
                            }
                        }
                        if j < i && timers0[j as int].spec_expired(now) {
                            assert(pre.contains(j));
                            let k = choose|k: int| 0 <= k < pre.len() && pre[k] == j;
                            assert(due@[k] == j);
                        }
                        if j == i {
                            assert(due@[pre.len() as int] == j);
                        }
                    }
                }
            } else {
                proof {
                    assert forall|j: usize|
                        j < i + 1 implies (due@.contains(j) <==> timers0[j as int].spec_expired(
                        now,
                    )) by {
                        if due@.contains(j) {
                            let k = choose|k: int| 0 <= k < due@.len() && due@[k] == j;
                            assert(due@[k] < i);
                        }
                    }
                }
            }
            i += 1;
        }
        due
    }

    /// The least remaining time over all running timers, the time the caller
    /// may block before the next deadline; `None` when every timer is
    /// stopped, meaning block until the next event.
    pub fn calculate_timeout(&self, now: u64) -> (r: Option<u64>)
        requires
            self.started_by(now),
        ensures
            r is Some <==> self.timers.any_running(),
            r matches Some(t) ==> (exists|i: int|
                0 <= i < self.timers.timers@.len() && (#[trigger] self.timers.timers@[i]).start
                    is Some && self.timers.timers@[i].spec_remaining(now) == t),
            r matches Some(t) ==> (forall|i: int|
                0 <= i < self.timers.timers@.len() && (#[trigger] self.timers.timers@[i]).start
                    is Some ==> self.timers.timers@[i].spec_remaining(now) >= t),
    {
        self.timers.calculate_timeout(now)
    }
}

} // verus!
