//! A capture session: what starting and stopping it, and loading schemas, leads to.

use vstd::prelude::*;
use crate::display::Status;

verus! {

/// What the viewer knows of its session.
pub struct Session {
    /// Whether the hook is in the game.
    pub hooked: bool,
    /// Whether the pipe server is asked to end.
    pub shutdown: bool,
    /// Where the schema documents are; empty while that is not known.
    pub schema_dir: String,
    pub status: Status,
}

impl Session {
    /// The session after the game was looked for.
    pub open spec fn after_search(self, found: Result<u32, String>) -> Session {
        match found {
            Ok(pid) => Session { status: Status::FoundGame { pid }, shutdown: false, ..self },
            Err(reason) => Session { status: Status::GameNotFound { reason }, ..self },
        }
    }

    /// The session after the hook was loaded, or was not.
    pub open spec fn after_injection(self, pid: u32, result: Result<(), String>) -> Session {
        match result {
            Ok(_) => Session { status: Status::Injected { pid }, hooked: true, ..self },
            Err(reason) => Session { status: Status::InjectionFailed { reason }, shutdown: true, ..self },
        }
    }

    /// The session after the capture was stopped.
    pub open spec fn after_stop(self) -> Session {
        Session { status: Status::Stopped, hooked: false, shutdown: true, ..self }
    }

    /// The session after schema documents were extracted, or were not.
    pub open spec fn after_extraction(self, result: Result<usize, String>, output_dir: String) -> Session {
        match result {
            Ok(files) => Session { status: Status::Extracted { files }, schema_dir: output_dir, ..self },
            Err(reason) => Session { status: Status::ExtractFailed { reason }, ..self },
        }
    }

    /// The session after schemas were loaded, or were not.
    pub open spec fn after_loading(self, result: Result<usize, String>) -> Session {
        match result {
            Ok(schemas) => Session { status: Status::Loaded { schemas }, ..self },
            Err(reason) => Session { status: Status::LoadFailed { reason }, ..self },
        }
    }

    /// A session that has not begun.
    pub fn new() -> (s: Self)
        ensures
            !s.hooked,
            !s.shutdown,
            s.schema_dir@.len() == 0,
            s.status == Status::Ready,
    {
        Session { hooked: false, shutdown: false, schema_dir: String::new(), status: Status::Ready }
    }

    /// The game was looked for. The capture goes on with its process, if there is one.
    pub fn game_searched(&mut self, found: Result<u32, String>) -> (pid: Option<u32>)
        ensures
            *final(self) == old(self).after_search(found),
            match found {
                Ok(p) => {
                    &&& pid == Some(p)
                    &&& final(self).status == (Status::FoundGame { pid: p })
                    &&& !final(self).shutdown
                },
                Err(reason) => {
                    &&& pid is None
                    &&& final(self).status == (Status::GameNotFound { reason })
                    &&& final(self).shutdown == old(self).shutdown
                },
            },
            final(self).hooked == old(self).hooked,
            final(self).schema_dir == old(self).schema_dir,
    {
        match found {
            Ok(p) => {
                self.status = Status::FoundGame { pid: p };
                self.shutdown = false;
                Some(p)
            },
            Err(reason) => {
                self.status = Status::GameNotFound { reason };
                None
            },
        }
    }

    /// The hook was loaded into the game's process, or was not. In that case the pipe server
    /// ends.
    pub fn injected(&mut self, pid: u32, result: Result<(), String>)
        ensures
            *final(self) == old(self).after_injection(pid, result),
            match result {
                Ok(_) => {
                    &&& final(self).hooked
                    &&& final(self).status == (Status::Injected { pid })
                    &&& final(self).shutdown == old(self).shutdown
                },
                Err(reason) => {
                    &&& final(self).hooked == old(self).hooked
                    &&& final(self).status == (Status::InjectionFailed { reason })
                    &&& final(self).shutdown
                },
            },
            final(self).schema_dir == old(self).schema_dir,
    {
        match result {
            Ok(_) => {
                self.status = Status::Injected { pid };
                self.hooked = true;
            },
            Err(reason) => {
                self.shutdown = true;
                self.status = Status::InjectionFailed { reason };
            },
        }
    }

    /// The capture is stopped.
    pub fn stopped(&mut self)
        ensures
            *final(self) == old(self).after_stop(),
            !final(self).hooked,
            final(self).shutdown,
            final(self).status == Status::Stopped,
            final(self).schema_dir == old(self).schema_dir,
    {
        self.shutdown = true;
        self.hooked = false;
        self.status = Status::Stopped;
    }

    /// Schema documents were extracted to a directory, or were not. Says whether they are to be
    /// loaded now.
    pub fn extracted(&mut self, result: Result<usize, String>, output_dir: String) -> (load: bool)
        ensures
            *final(self) == old(self).after_extraction(result, output_dir),
            load <==> result is Ok,
            match result {
                Ok(files) => {
                    &&& load
                    &&& final(self).schema_dir == output_dir
                    &&& final(self).status == (Status::Extracted { files })
                },
                Err(reason) => {
                    &&& !load
                    &&& final(self).schema_dir == old(self).schema_dir
                    &&& final(self).status == (Status::ExtractFailed { reason })
                },
            },
            final(self).hooked == old(self).hooked,
            final(self).shutdown == old(self).shutdown,
    {
        match result {
            Ok(files) => {
                self.schema_dir = output_dir;
                self.status = Status::Extracted { files };
                true
            },
            Err(reason) => {
                self.status = Status::ExtractFailed { reason };
                false
            },
        }
    }

    /// Whether there is a directory to load schemas from. Where there is none, the status says
    /// so.
    pub fn can_load_schemas(&mut self) -> (r: bool)
        ensures
            r == (old(self).schema_dir@.len() > 0),
            final(self).status == (if r { old(self).status } else { Status::NoSchemaDirectory }),
            final(self).schema_dir == old(self).schema_dir,
            final(self).hooked == old(self).hooked,
            final(self).shutdown == old(self).shutdown,
    {
        if self.schema_dir.as_str().is_empty() {
            self.status = Status::NoSchemaDirectory;
            false
        } else {
            true
        }
    }

    /// Schemas were loaded, or were not.
    pub fn schemas_loaded(&mut self, result: Result<usize, String>)
        ensures
            *final(self) == old(self).after_loading(result),
            final(self).status == match result {
                Ok(schemas) => Status::Loaded { schemas },
                Err(reason) => Status::LoadFailed { reason },
            },
            final(self).schema_dir == old(self).schema_dir,
            final(self).hooked == old(self).hooked,
            final(self).shutdown == old(self).shutdown,
    {
        self.status = match result {
            Ok(schemas) => Status::Loaded { schemas },
            Err(reason) => Status::LoadFailed { reason },
        };
    }
}

// ---- laws ----

/// The hook is in the game after it was loaded, and only then: looking for the game changes nothing
/// of that, a failed loading neither, and stopping takes it out.
pub proof fn law_hooked_between_loading_and_stopping(
    session: Session,
    found: Result<u32, String>,
    pid: u32,
    result: Result<(), String>,
)
    ensures
        session.after_search(found).hooked == session.hooked,
        session.after_injection(pid, result).hooked == (session.hooked || result is Ok),
        !session.after_stop().hooked,
{
}

/// The pipe server is asked to end when the capture is stopped or the hook could not be loaded, and
/// no longer is once the game was found again. Nothing else asks it to end.
pub proof fn law_server_is_asked_to_end(
    session: Session,
    found: Result<u32, String>,
    pid: u32,
    result: Result<(), String>,
)
    ensures
        session.after_search(found).shutdown == (session.shutdown && found is Err),
        session.after_injection(pid, result).shutdown == (session.shutdown || result is Err),
        session.after_stop().shutdown,
{
}

/// A session from the start: with the game found and the hook loaded it captures; with the game
/// found and the hook not loaded the server ends; after a stop it can begin again.
pub proof fn law_sessions(session: Session, pid: u32, reason: String)
    ensures
        ({
            let found = session.after_search(Ok(pid));
            let captures = found.after_injection(pid, Ok(()));
            let failed = found.after_injection(pid, Err(reason));
            let again = captures.after_stop().after_search(Ok(pid)).after_injection(pid, Ok(()));
            &&& captures.hooked && !captures.shutdown && captures.status == (Status::Injected { pid })
            &&& failed.shutdown && failed.hooked == session.hooked && failed.status == (
            Status::InjectionFailed { reason })
            &&& again.hooked && !again.shutdown
        }),
{
}

/// Schemas and captures do not touch each other: what concerns schemas leaves hook and server as
/// they are, and what concerns the capture leaves the directory of schemas.
pub proof fn law_schemas_and_captures_are_apart(
    session: Session,
    found: Result<u32, String>,
    pid: u32,
    result: Result<(), String>,
    extracted: Result<usize, String>,
    output_dir: String,
    loaded: Result<usize, String>,
)
    ensures
        session.after_search(found).schema_dir == session.schema_dir,
        session.after_injection(pid, result).schema_dir == session.schema_dir,
        session.after_stop().schema_dir == session.schema_dir,
        session.after_extraction(extracted, output_dir).hooked == session.hooked,
        session.after_extraction(extracted, output_dir).shutdown == session.shutdown,
        session.after_loading(loaded).hooked == session.hooked,
        session.after_loading(loaded).shutdown == session.shutdown,
        session.after_loading(loaded).schema_dir == session.schema_dir,
        session.after_extraction(extracted, output_dir).schema_dir == (if extracted is Ok {
            output_dir
        } else {
            session.schema_dir
        }),
{
}

/// The status says what happened last.
pub proof fn law_status_says_what_happened(
    session: Session,
    pid: u32,
    n: usize,
    output_dir: String,
    reason: String,
)
    ensures
        session.after_search(Ok(pid)).status == (Status::FoundGame { pid }),
        session.after_search(Err(reason)).status == (Status::GameNotFound { reason }),
        session.after_injection(pid, Ok(())).status == (Status::Injected { pid }),
        session.after_injection(pid, Err(reason)).status == (Status::InjectionFailed { reason }),
        session.after_stop().status == Status::Stopped,
        session.after_extraction(Ok(n), output_dir).status == (Status::Extracted { files: n }),
        session.after_extraction(Err(reason), output_dir).status == (Status::ExtractFailed { reason }),
        session.after_loading(Ok(n)).status == (Status::Loaded { schemas: n }),
        session.after_loading(Err(reason)).status == (Status::LoadFailed { reason }),
{
}

} // verus!
