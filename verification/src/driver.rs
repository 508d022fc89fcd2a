//! The install driver: the staged execution of a resolution plan.
//!
//! First the repository batch, then each base in build order: build,
//! then install its artifacts, strictly sequentially. A failure asks
//! the error menu; retry repeats the step, skip abandons the base and
//! moves on, abort ends the run. The process invocations stay outside;
//! their outcomes come back as events.

use vstd::prelude::*;
use vstd::string::*;
use crate::resolver::ResolutionPlan;
use crate::interactive::ErrorAction;

verus! {

/// Where the run stands.
#[derive(PartialEq, Eq, Structural, Clone, Copy, Debug)]
pub enum Phase {
    RepoBatch,
    Build,
    InstallFiles,
    Done,
    Aborted,
}

/// The staged run over a plan: the repository batch, then the bases in
/// order, each built and then installed before the next is touched.
pub struct InstallDriver {
    pub plan: ResolutionPlan,
    pub idx: usize,
    pub phase: Phase,
    pub built: Vec<String>,
    pub skipped: Vec<String>,
}

impl InstallDriver {
    /// Every base before the cursor went one way: installed or
    /// skipped; the cursor never passes the end; work phases stand at
    /// a real base.
    pub open spec fn wf(&self) -> bool {
        &&& self.idx <= self.plan.build_order@.len()
        &&& self.built@.len() + self.skipped@.len() == self.idx
        &&& (self.phase == Phase::Build || self.phase == Phase::InstallFiles) ==> self.idx
            < self.plan.build_order@.len()
        &&& self.phase == Phase::Done ==> self.idx == self.plan.build_order@.len()
        &&& self.phase == Phase::RepoBatch ==> self.idx == 0
        &&& forall|p: int|
            0 <= p < self.idx ==> self.built.deep_view().contains(
                #[trigger] self.plan.build_order.deep_view()[p],
            ) || self.skipped.deep_view().contains(self.plan.build_order.deep_view()[p])
    }

    /// A fresh run: the repository batch comes first.
    pub fn new(plan: ResolutionPlan) -> (r: Self)
        ensures
            r.wf(),
            r.plan == plan,
            r.phase == Phase::RepoBatch,
            r.built@.len() == 0,
            r.skipped@.len() == 0,
    {
        InstallDriver { plan, idx: 0, phase: Phase::RepoBatch, built: Vec::new(), skipped: Vec::new() }
    }

    /// The base the run stands at.
    pub fn current_base(&self) -> (r: &String)
        requires
            self.wf(),
            self.phase == Phase::Build || self.phase == Phase::InstallFiles,
        ensures
            r@ == self.plan.build_order.deep_view()[self.idx as int],
    {
        &self.plan.build_order[self.idx]
    }

    /// The repository batch ended: on success the builds start (or the
    /// run is done when nothing needs building); on failure the run
    /// aborts, with no retry, as the native tool already spoke to the
    /// user.
    pub fn on_repo_result(&mut self, ok: bool)
        requires
            old(self).wf(),
            old(self).phase == Phase::RepoBatch,
        ensures
            final(self).wf(),
            final(self).plan == old(self).plan,
            final(self).idx == old(self).idx,
            final(self).built == old(self).built,
            final(self).skipped == old(self).skipped,
            !ok ==> final(self).phase == Phase::Aborted,
            ok && old(self).plan.build_order@.len() == 0 ==> final(self).phase == Phase::Done,
            ok && old(self).plan.build_order@.len() > 0 ==> final(self).phase == Phase::Build,
    {
        if !ok {
            self.phase = Phase::Aborted;
        } else if self.plan.build_order.len() == 0 {
            self.phase = Phase::Done;
        } else {
            self.phase = Phase::Build;
        }
    }

    /// A build ended: success moves to installing the artifacts;
    /// failure follows the menu — retry repeats the build, skip
    /// abandons the base, abort ends the run.
    pub fn on_build_result(&mut self, ok: bool, action: ErrorAction)
        requires
            old(self).wf(),
            old(self).phase == Phase::Build,
        ensures
            final(self).wf(),
            final(self).plan == old(self).plan,
            final(self).built == old(self).built,
            ok ==> *final(self) == (InstallDriver { phase: Phase::InstallFiles, ..*old(self) }),
            !ok && action == ErrorAction::Retry ==> *final(self) == *old(self),
            !ok && action == ErrorAction::Skip ==> {
                &&& final(self).skipped@ == old(self).skipped@.push(
                    old(self).plan.build_order@[old(self).idx as int],
                )
                &&& final(self).idx == old(self).idx + 1
                &&& (final(self).phase == Phase::Build || final(self).phase == Phase::Done)
            },
            !ok && action == ErrorAction::Abort ==> *final(self) == (InstallDriver {
                phase: Phase::Aborted,
                ..*old(self)
            }),
    {
        if ok {
            self.phase = Phase::InstallFiles;
        } else {
            match action {
                ErrorAction::Retry => {},
                ErrorAction::Skip => {
                    self.skip_current();
                },
                ErrorAction::Abort => {
                    self.phase = Phase::Aborted;
                },
            }
        }
    }

    /// An artifact install ended: success records the base and moves
    /// on; failure follows the menu as after a build, with retry meant
    /// for transient causes such as a held database lock.
    pub fn on_install_result(&mut self, ok: bool, action: ErrorAction)
        requires
            old(self).wf(),
            old(self).phase == Phase::InstallFiles,
        ensures
            final(self).wf(),
            final(self).plan == old(self).plan,
            ok ==> {
                &&& final(self).built@ == old(self).built@.push(
                    old(self).plan.build_order@[old(self).idx as int],
                )
                &&& final(self).skipped == old(self).skipped
                &&& final(self).idx == old(self).idx + 1
                &&& (final(self).phase == Phase::Build || final(self).phase == Phase::Done)
            },
            !ok && action == ErrorAction::Retry ==> *final(self) == *old(self),
            !ok && action == ErrorAction::Skip ==> {
                &&& final(self).skipped@ == old(self).skipped@.push(
                    old(self).plan.build_order@[old(self).idx as int],
                )
                &&& final(self).built == old(self).built
                &&& final(self).idx == old(self).idx + 1
                &&& (final(self).phase == Phase::Build || final(self).phase == Phase::Done)
            },
            !ok && action == ErrorAction::Abort ==> *final(self) == (InstallDriver {
                phase: Phase::Aborted,
                ..*old(self)
            }),
    {
        if ok {
            let name = self.plan.build_order[self.idx].clone();
            let ghost pre = self.built.deep_view();
            self.built.push(name);
            proof {
                assert(self.built.deep_view() =~= pre.push(
                    self.plan.build_order.deep_view()[self.idx as int],
                ));
            }
        proof {
            let bo = self.plan.build_order.deep_view();
            assert forall|p: int|
                0 <= p < self.idx + 1 implies self.built.deep_view().contains(
                #[trigger] bo[p],
            ) || self.skipped.deep_view().contains(bo[p]) by {
                if p < self.idx {
                    if old(self).built.deep_view().contains(bo[p]) {
                        let w = choose|w: int|
                            0 <= w < old(self).built.deep_view().len() && old(
                                self,
                            ).built.deep_view()[w] == bo[p];
                        assert(self.built.deep_view()[w] == bo[p]);
                    }
                } else {
                    assert(self.built.deep_view()[self.built.deep_view().len() - 1] == bo[p]);
                }
            }
        }
            self.advance();
        } else {
            match action {
                ErrorAction::Retry => {},
                ErrorAction::Skip => {
                    self.skip_current();
                },
                ErrorAction::Abort => {
                    self.phase = Phase::Aborted;
                },
            }
        }
    }

    /// Abandons the base under the cursor and moves on.
    fn skip_current(&mut self)
        requires
            old(self).wf(),
            old(self).phase == Phase::Build || old(self).phase == Phase::InstallFiles,
        ensures
            final(self).wf(),
            final(self).plan == old(self).plan,
            final(self).built == old(self).built,
            final(self).skipped@ == old(self).skipped@.push(
                old(self).plan.build_order@[old(self).idx as int],
            ),
            final(self).idx == old(self).idx + 1,
            final(self).phase == Phase::Build || final(self).phase == Phase::Done,
    {
        let name = self.plan.build_order[self.idx].clone();
        let ghost pre = self.skipped.deep_view();
        self.skipped.push(name);
        proof {
            assert(self.skipped.deep_view() =~= pre.push(
                self.plan.build_order.deep_view()[self.idx as int],
            ));
        }
        proof {
            let bo = self.plan.build_order.deep_view();
            assert forall|p: int|
                0 <= p < self.idx + 1 implies self.built.deep_view().contains(
                #[trigger] bo[p],
            ) || self.skipped.deep_view().contains(bo[p]) by {
                if p < self.idx {
                    if old(self).skipped.deep_view().contains(bo[p]) {
                        let w = choose|w: int|
                            0 <= w < old(self).skipped.deep_view().len() && old(
                                self,
                            ).skipped.deep_view()[w] == bo[p];
                        assert(self.skipped.deep_view()[w] == bo[p]);
                    }
                } else {
                    assert(self.skipped.deep_view()[self.skipped.deep_view().len() - 1] == bo[p]);
                }
            }
        }
        self.advance();
    }

    /// Moves the cursor to the next base, counting the one under it as
    /// resolved either way.
    fn advance(&mut self)
        requires
            old(self).idx < old(self).plan.build_order@.len(),
            old(self).built@.len() + old(self).skipped@.len() == old(self).idx + 1,
            forall|p: int|
                0 <= p < old(self).idx + 1 ==> old(self).built.deep_view().contains(
                    #[trigger] old(self).plan.build_order.deep_view()[p],
                ) || old(self).skipped.deep_view().contains(
                    old(self).plan.build_order.deep_view()[p],
                ),
        ensures
            final(self).wf(),
            final(self).plan == old(self).plan,
            final(self).built == old(self).built,
            final(self).skipped == old(self).skipped,
            final(self).idx == old(self).idx + 1,
            final(self).phase == Phase::Build || final(self).phase == Phase::Done,
            final(self).idx == final(self).plan.build_order@.len() <==> final(self).phase
                == Phase::Done,
    {
        let n = self.plan.build_order.len();
        self.idx = self.idx + 1;
        if self.idx == n {
            self.phase = Phase::Done;
        } else {
            self.phase = Phase::Build;
        }
    }
}

} // verus!
