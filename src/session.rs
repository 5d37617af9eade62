//! Session state of the terminal: at most one pseudo-terminal master and one
//! writer into it, installed and replaced together.
use vstd::prelude::*;

verus! {

/// Why a command on the terminal session failed.
#[derive(PartialEq, Eq, Structural, Clone, Copy, Debug)]
pub enum PtyError {
    /// No pseudo-terminal could be obtained.
    PtyAllocation,
    /// The shell process could not be started.
    Spawn,
    /// Read or write handles could not be split from the master.
    HandleDerivation,
    /// No session has been created yet.
    NoActiveSession,
    /// Writing to the session failed.
    Write,
    /// Resizing the session failed.
    Resize,
}

/// Terminal dimensions in character cells.
#[derive(PartialEq, Eq, Structural, Clone, Copy, Debug)]
pub struct TermSize {
    pub rows: u16,
    pub cols: u16,
}

/// The slot for the master side of the pseudo-terminal.
pub struct PtyState<M> {
    pub master: Option<M>,
}

/// The slot for the writer bound to the pseudo-terminal's input.
pub struct WriterState<W> {
    pub writer: Option<W>,
}

/// Both slots, kept together so that they always describe the same session,
/// with the size last applied to it.
pub struct SessionState<M, W> {
    pty: PtyState<M>,
    input: WriterState<W>,
    size: Option<TermSize>,
}

impl<M, W> SessionState<M, W> {
    /// The installed master, if any.
    pub closed spec fn master(&self) -> Option<M> {
        self.pty.master
    }

    /// The installed writer, if any.
    pub closed spec fn writer(&self) -> Option<W> {
        self.input.writer
    }

    /// The size last applied to the installed session.
    pub closed spec fn size(&self) -> Option<TermSize> {
        self.size
    }

    /// The state in which a session of `master`, `writer` and `size` is
    /// installed, whatever was there before.
    pub closed spec fn with_session(self, master: M, writer: W, size: TermSize) -> Self {
        SessionState {
            pty: PtyState { master: Some(master) },
            input: WriterState { writer: Some(writer) },
            size: Some(size),
        }
    }

    /// The same session, now of `size`.
    pub closed spec fn with_size(self, size: TermSize) -> Self {
        SessionState { size: Some(size), ..self }
    }

    /// Either no session at all or a whole one.
    pub open spec fn wf(&self) -> bool {
        &&& (self.master() is Some <==> self.writer() is Some)
        &&& (self.master() is Some <==> self.size() is Some)
    }

    /// The empty state, before any session was created.
    pub fn new() -> (r: Self)
        ensures
            r.wf(),
            r.master() is None,
            r.writer() is None,
            r.size() is None,
    {
        SessionState {
            pty: PtyState { master: None },
            input: WriterState { writer: None },
            size: None,
        }
    }

    /// Whether a session is installed.
    pub fn is_active(&self) -> (r: bool)
        requires
            self.wf(),
        ensures
            r == self.master() is Some,
            r == self.writer() is Some,
    {
        self.pty.master.is_some()
    }

    /// The size last applied to the session, if one is installed.
    pub fn current_size(&self) -> (r: Option<TermSize>)
        ensures
            r == self.size(),
    {
        self.size
    }

    /// Finishes a `createSession`: on success the new master and writer
    /// replace the old ones together, and the old pair is handed back so
    /// that it can be torn down; on failure nothing changes and the error is
    /// returned.
    pub fn create_session(&mut self, opened: Result<(M, W), PtyError>, size: TermSize) -> (r:
        Result<Option<(M, W)>, PtyError>)
        requires
            old(self).wf(),
        ensures
            final(self).wf(),
            match opened {
                Ok(pair) => {
                    &&& *final(self) == old(self).with_session(pair.0, pair.1, size)
                    &&& final(self).master() == Some(pair.0)
                    &&& final(self).writer() == Some(pair.1)
                    &&& final(self).size() == Some(size)
                    &&& r matches Ok(prev) && (match prev {
                        Some(p) => old(self).master() == Some(p.0) && old(self).writer() == Some(
                            p.1,
                        ),
                        None => old(self).master() is None,
                    })
                },
                Err(e) => *final(self) == *old(self) && r == Err::<Option<(M, W)>, PtyError>(e),
            },
    {
        match opened {
            Ok(pair) => {
                let (master, writer) = pair;
                let old_master = self.pty.master.take();
                let old_writer = self.input.writer.take();
                self.pty.master = Some(master);
                self.input.writer = Some(writer);
                self.size = Some(size);
                match (old_master, old_writer) {
                    (Some(m), Some(w)) => Ok(Some((m, w))),
                    _ => Ok(None),
                }
            },
            Err(e) => Err(e),
        }
    }

    /// The master of the installed session, for a resize; fails with
    /// `NoActiveSession` when none is installed.
    pub fn master_ref(&self) -> (r: Result<&M, PtyError>)
        ensures
            match self.master() {
                Some(m) => r == Ok::<&M, PtyError>(&m),
                None => r == Err::<&M, PtyError>(PtyError::NoActiveSession),
            },
    {
        match &self.pty.master {
            Some(m) => Ok(m),
            None => Err(PtyError::NoActiveSession),
        }
    }

    /// The writer of the installed session, for `writeInput`; fails with
    /// `NoActiveSession`, handing out nothing, when none is installed.
    pub fn writer_mut(&mut self) -> (r: Result<&mut W, PtyError>)
        ensures
            match old(self).writer() {
                Some(w) => r matches Ok(wr) && *wr == w && final(self).writer() == Some(*final(wr))
                    && final(self).master() == old(self).master() && final(self).size() == old(
                    self,
                ).size(),
                None => r matches Err(e) && e == PtyError::NoActiveSession && *final(self) == *old(
                    self,
                ),
            },
    {
        match self.input.writer.as_mut() {
            Some(w) => Ok(w),
            None => Err(PtyError::NoActiveSession),
        }
    }

    /// Records that the installed session was resized to `size`; fails with
    /// `NoActiveSession`, changing nothing, when none is installed.
    pub fn record_resize(&mut self, size: TermSize) -> (r: Result<(), PtyError>)
        requires
            old(self).wf(),
        ensures
            final(self).wf(),
            old(self).master() is Some ==> r is Ok && *final(self) == old(self).with_size(size)
                && final(self).size() == Some(size) && final(self).master() == old(self).master()
                && final(self).writer() == old(self).writer(),
            old(self).master() is None ==> r == Err::<(), PtyError>(PtyError::NoActiveSession)
                && *final(self) == *old(self),
    {
        if self.pty.master.is_some() {
            self.size = Some(size);
            Ok(())
        } else {
            Err(PtyError::NoActiveSession)
        }
    }
}

/// Creating a session twice in a row leaves no trace of the first: master,
/// writer and size all belong to the second, so input reaches only it.
pub proof fn lemma_recreate_replaces<M, W>(
    s: SessionState<M, W>,
    m1: M,
    w1: W,
    z1: TermSize,
    m2: M,
    w2: W,
    z2: TermSize,
)
    ensures
        s.with_session(m1, w1, z1).with_session(m2, w2, z2) == s.with_session(m2, w2, z2),
        s.with_session(m1, w1, z1).with_session(m2, w2, z2).writer() == Some(w2),
        s.with_session(m1, w1, z1).with_session(m2, w2, z2).master() == Some(m2),
{
}

/// Two resizes in a row leave the session at the second size, as one resize
/// to that size would.
pub proof fn lemma_last_resize_wins<M, W>(s: SessionState<M, W>, a: TermSize, b: TermSize)
    ensures
        s.with_size(a).with_size(b) == s.with_size(b),
        s.with_size(a).with_size(b).size() == Some(b),
        s.with_size(a).with_size(b).master() == s.master(),
        s.with_size(a).with_size(b).writer() == s.writer(),
{
}

} // verus!
