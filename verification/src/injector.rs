//! Finding the game among the running processes, and the order in which the hook is loaded
//! into it.

use vstd::prelude::*;
use vstd::string::*;
use crate::text;
use crate::text::{contains_text, field_text, lower_text, wide_nul};

verus! {

/// A running process.
pub struct ProcessEntry {
    /// The name of its program in its fixed-size UTF-16 field.
    pub name_field: Vec<u16>,
    pub pid: u32,
}

impl ProcessEntry {
    /// Whether the process is the game.
    pub open spec fn is_game(self) -> bool {
        text::occurs_in(
            text::lower(text::utf16_decoded(text::until_nul(self.name_field@))),
            text::lower("WizardGraphicalClient"@),
        )
    }
}

/// The first of these processes that is the game.
pub open spec fn first_game(processes: Seq<ProcessEntry>) -> Option<u32>
    decreases processes.len(),
{
    if processes.len() == 0 {
        None
    } else if processes[0].is_game() {
        Some(processes[0].pid)
    } else {
        first_game(processes.skip(1))
    }
}

/// Finds the PID of the Wizard101 game process.
pub fn find_game_pid(processes: &Vec<ProcessEntry>) -> (r: Result<u32, String>)
    ensures
        match first_game(processes@) {
            Some(pid) => r == Ok::<u32, String>(pid),
            None => r matches Err(e) && e@ == "WizardGraphicalClient.exe not found"@,
        },
{
    let target: String = lower_text("WizardGraphicalClient");
    let mut i: usize = 0;
    assert(processes@.skip(0) =~= processes@);
    while i < processes.len()
        invariant
            i <= processes@.len(),
            target@ == text::lower("WizardGraphicalClient"@),
            first_game(processes@) == first_game(processes@.skip(i as int)),
        decreases processes@.len() - i,
    {
        let entry = &processes[i];
        assert(processes@.skip(i as int)[0] == *entry);
        assert(processes@.skip(i as int).skip(1) =~= processes@.skip(i + 1));
        let name: String = field_text(entry.name_field.as_slice());
        let lower: String = lower_text(name.as_str());
        if contains_text(lower.as_str(), target.as_str()) {
            return Ok(entry.pid);
        }
        i += 1;
    }
    Err("WizardGraphicalClient.exe not found".to_owned())
}

/// The path of the hook as it is written into the game: in UTF-16 with a NUL at its end.
pub fn remote_path(path: &str) -> (units: Vec<u16>)
    ensures
        units@ == text::utf16_encoded(path@).push(0),
{
    wide_nul(path)
}

/// What is open in the game while the hook is loaded into it, and how far that is.
#[derive(Debug, Clone, Copy, PartialEq, Eq, Structural)]
pub enum InjectStage {
    /// The game's process is opened.
    OpenProcess,
    /// Memory for the path is allocated there.
    Allocate,
    /// The path is written to it.
    WritePath,
    /// The system library that loads others is looked up.
    FindSystemLibrary,
    /// Its loading function is looked up.
    FindLoader,
    /// A thread is started there that calls it with the path.
    StartThread,
    /// The thread is waited for.
    Wait,
    /// The hook is loaded.
    Loaded,
    /// The hook is not loaded.
    Failed(InjectFailure),
}

/// Why the hook was not loaded.
#[derive(Debug, Clone, Copy, PartialEq, Eq, Structural)]
pub enum InjectFailure {
    OpenProcess,
    Allocate,
    WritePath,
    FindSystemLibrary,
    FindLoader,
    StartThread,
    TimedOut,
}

/// What is undone when a stage is over.
#[derive(Debug, Clone, Copy, PartialEq, Eq, Structural)]
pub struct Cleanup {
    pub free_memory: bool,
    pub close_thread: bool,
    pub close_process: bool,
}

impl InjectStage {
    /// What comes after the stage. `succeeded` is how it went.
    pub open spec fn next(self, succeeded: bool) -> InjectStage {
        match self {
            InjectStage::OpenProcess => if succeeded {
                InjectStage::Allocate
            } else {
                InjectStage::Failed(InjectFailure::OpenProcess)
            },
            InjectStage::Allocate => if succeeded {
                InjectStage::WritePath
            } else {
                InjectStage::Failed(InjectFailure::Allocate)
            },
            InjectStage::WritePath => if succeeded {
                InjectStage::FindSystemLibrary
            } else {
                InjectStage::Failed(InjectFailure::WritePath)
            },
            InjectStage::FindSystemLibrary => if succeeded {
                InjectStage::FindLoader
            } else {
                InjectStage::Failed(InjectFailure::FindSystemLibrary)
            },
            InjectStage::FindLoader => if succeeded {
                InjectStage::StartThread
            } else {
                InjectStage::Failed(InjectFailure::FindLoader)
            },
            InjectStage::StartThread => if succeeded {
                InjectStage::Wait
            } else {
                InjectStage::Failed(InjectFailure::StartThread)
            },
            InjectStage::Wait => if succeeded {
                InjectStage::Loaded
            } else {
                InjectStage::Failed(InjectFailure::TimedOut)
            },
            InjectStage::Loaded => InjectStage::Loaded,
            InjectStage::Failed(failure) => InjectStage::Failed(failure),
        }
    }

    /// What is undone when the stage is over.
    pub open spec fn undone(self, succeeded: bool) -> Cleanup {
        let all = self == InjectStage::Wait;
        Cleanup {
            free_memory: all || (!succeeded && self == InjectStage::WritePath),
            close_thread: all,
            close_process: all || (!succeeded && (self == InjectStage::Allocate || self
                == InjectStage::WritePath)),
        }
    }

    /// What comes next, and what is undone first. `succeeded` is how the stage went. What a
    /// lookup or the start of the thread leaves open is not undone when it fails.
    pub fn step(self, succeeded: bool) -> (r: (InjectStage, Cleanup))
        ensures
            r.0 == self.next(succeeded),
            r.1 == self.undone(succeeded),
            r.1.close_process <==> self == InjectStage::Wait || (!succeeded && (self
                == InjectStage::Allocate || self == InjectStage::WritePath)),
            r.1.free_memory <==> self == InjectStage::Wait || (!succeeded && self
                == InjectStage::WritePath),
            r.1.close_thread <==> self == InjectStage::Wait,
    {
        let none = Cleanup { free_memory: false, close_thread: false, close_process: false };
        match self {
            InjectStage::OpenProcess => if succeeded {
                (InjectStage::Allocate, none)
            } else {
                (InjectStage::Failed(InjectFailure::OpenProcess), none)
            },
            InjectStage::Allocate => if succeeded {
                (InjectStage::WritePath, none)
            } else {
                (
                    InjectStage::Failed(InjectFailure::Allocate),
                    Cleanup { free_memory: false, close_thread: false, close_process: true },
                )
            },
            InjectStage::WritePath => if succeeded {
                (InjectStage::FindSystemLibrary, none)
            } else {
                (
                    InjectStage::Failed(InjectFailure::WritePath),
                    Cleanup { free_memory: true, close_thread: false, close_process: true },
                )
            },
            InjectStage::FindSystemLibrary => if succeeded {
                (InjectStage::FindLoader, none)
            } else {
                (InjectStage::Failed(InjectFailure::FindSystemLibrary), none)
            },
            InjectStage::FindLoader => if succeeded {
                (InjectStage::StartThread, none)
            } else {
                (InjectStage::Failed(InjectFailure::FindLoader), none)
            },
            InjectStage::StartThread => if succeeded {
                (InjectStage::Wait, none)
            } else {
                (InjectStage::Failed(InjectFailure::StartThread), none)
            },
            InjectStage::Wait => {
                let all = Cleanup { free_memory: true, close_thread: true, close_process: true };
                if succeeded {
                    (InjectStage::Loaded, all)
                } else {
                    (InjectStage::Failed(InjectFailure::TimedOut), all)
                }
            },
            InjectStage::Loaded => (InjectStage::Loaded, none),
            InjectStage::Failed(failure) => (InjectStage::Failed(failure), none),
        }
    }
}

/// The message of a failure, behind which the system's own words may stand.
pub open spec fn failure_message(failure: InjectFailure, detail: Seq<char>) -> Seq<char> {
    match failure {
        InjectFailure::OpenProcess => "OpenProcess failed: "@ + detail,
        InjectFailure::Allocate => "VirtualAllocEx failed"@,
        InjectFailure::WritePath => "WriteProcessMemory failed"@,
        InjectFailure::FindSystemLibrary => "GetModuleHandleA failed: "@ + detail,
        InjectFailure::FindLoader => "GetProcAddress(LoadLibraryW) failed"@,
        InjectFailure::StartThread => "CreateRemoteThread failed: "@ + detail,
        InjectFailure::TimedOut => "Remote thread did not complete in time"@,
    }
}

/// The message of a failure. `detail` is what the system said.
pub fn failure_text(failure: InjectFailure, detail: &str) -> (out: String)
    ensures
        out@ == failure_message(failure, detail@),
{
    match failure {
        InjectFailure::OpenProcess => "OpenProcess failed: ".to_owned().concat(detail),
        InjectFailure::Allocate => "VirtualAllocEx failed".to_owned(),
        InjectFailure::WritePath => "WriteProcessMemory failed".to_owned(),
        InjectFailure::FindSystemLibrary => "GetModuleHandleA failed: ".to_owned().concat(detail),
        InjectFailure::FindLoader => "GetProcAddress(LoadLibraryW) failed".to_owned(),
        InjectFailure::StartThread => "CreateRemoteThread failed: ".to_owned().concat(detail),
        InjectFailure::TimedOut => "Remote thread did not complete in time".to_owned(),
    }
}

/// Where the hook's library is taken from.
#[derive(Debug, Clone, Copy, PartialEq, Eq, Structural)]
pub enum HookLocation {
    NextToProgram,
    ReleaseBuild,
    DebugBuild,
}

/// The first place that has the library; next to the program where none has.
pub open spec fn first_location(next_to_program: bool, in_release: bool, in_debug: bool) -> HookLocation {
    if next_to_program {
        HookLocation::NextToProgram
    } else if in_release {
        HookLocation::ReleaseBuild
    } else if in_debug {
        HookLocation::DebugBuild
    } else {
        HookLocation::NextToProgram
    }
}

/// Chooses the first place that has the library; next to the program where none has.
pub fn hook_location(next_to_program: bool, in_release: bool, in_debug: bool) -> (r: HookLocation)
    ensures
        r == first_location(next_to_program, in_release, in_debug),
{
    if next_to_program {
        HookLocation::NextToProgram
    } else if in_release {
        HookLocation::ReleaseBuild
    } else if in_debug {
        HookLocation::DebugBuild
    } else {
        HookLocation::NextToProgram
    }
}

// ---- laws ----

/// The process that is found is the first one whose name, in any case, contains the game's.
pub proof fn law_first_game_is_found(processes: Seq<ProcessEntry>)
    ensures
        match first_game(processes) {
            Some(pid) => exists|i: int|
                {
                    &&& 0 <= i < processes.len()
                    &&& (#[trigger] processes[i]).is_game()
                    &&& processes[i].pid == pid
                    &&& forall|j: int| 0 <= j < i ==> !(#[trigger] processes[j]).is_game()
                },
            None => forall|i: int| 0 <= i < processes.len() ==> !(#[trigger] processes[i]).is_game(),
        },
    decreases processes.len(),
{
    if processes.len() > 0 && !processes[0].is_game() {
        let rest = processes.skip(1);
        law_first_game_is_found(rest);
        assert forall|j: int| 0 <= j < processes.len() - 1 implies rest[j] == #[trigger] processes[j + 1] by {}
        match first_game(rest) {
            Some(pid) => {
                let i = choose|i: int|
                    {
                        &&& 0 <= i < rest.len()
                        &&& (#[trigger] rest[i]).is_game()
                        &&& rest[i].pid == pid
                        &&& forall|j: int| 0 <= j < i ==> !(#[trigger] rest[j]).is_game()
                    };
                assert(processes[i + 1].is_game());
                assert forall|j: int| 0 <= j < i + 1 implies !(#[trigger] processes[j]).is_game() by {
                    if j > 0 {
                        assert(rest[j - 1] == processes[j]);
                    }
                }
            },
            None => {
                assert forall|j: int| 0 <= j < processes.len() implies !(#[trigger] processes[j]).is_game() by {
                    if j > 0 {
                        assert(rest[j - 1] == processes[j]);
                    }
                }
            },
        }
    } else if processes.len() > 0 {
        assert(processes[0].is_game());
    }
}

/// The game is the process whose name, up to its first zero and with its letters in lower case, has
/// `wizardgraphicalclient` in it.
pub proof fn law_game_is_known_by_its_name(process: ProcessEntry, front: Seq<char>, back: Seq<char>)
    ensures
        ({
            let name = text::lower(text::utf16_decoded(text::until_nul(process.name_field@)));
            &&& name == front + "wizardgraphicalclient"@ + back ==> process.is_game()
            &&& process.is_game() ==> exists|f: Seq<char>, b: Seq<char>|
                name == #[trigger] (f + "wizardgraphicalclient"@ + b)
        }),
{
    let name = text::lower(text::utf16_decoded(text::until_nul(process.name_field@)));
    reveal_strlit("WizardGraphicalClient");
    reveal_strlit("wizardgraphicalclient");
    assert(vstd::utf8::is_ascii_chars("WizardGraphicalClient"@));
    text::law_lower_case("WizardGraphicalClient"@);
    assert(text::lower("WizardGraphicalClient"@) =~= "wizardgraphicalclient"@);
    text::law_parts_occur(name, "wizardgraphicalclient"@, front, back);
}

/// Where loading stands after stages that all went well.
pub open spec fn after_successes(stage: InjectStage, n: nat) -> InjectStage
    decreases n,
{
    if n == 0 {
        stage
    } else {
        after_successes(stage, (n - 1) as nat).next(true)
    }
}

/// Seven stages that go well load the hook, in this order, and no fewer do.
pub proof fn law_seven_stages_load_the_hook(n: nat)
    ensures
        after_successes(InjectStage::OpenProcess, 0) == InjectStage::OpenProcess,
        after_successes(InjectStage::OpenProcess, 1) == InjectStage::Allocate,
        after_successes(InjectStage::OpenProcess, 2) == InjectStage::WritePath,
        after_successes(InjectStage::OpenProcess, 3) == InjectStage::FindSystemLibrary,
        after_successes(InjectStage::OpenProcess, 4) == InjectStage::FindLoader,
        after_successes(InjectStage::OpenProcess, 5) == InjectStage::StartThread,
        after_successes(InjectStage::OpenProcess, 6) == InjectStage::Wait,
        n >= 7 ==> after_successes(InjectStage::OpenProcess, n) == InjectStage::Loaded,
    decreases n,
{
    reveal_with_fuel(after_successes, 8);
    if n > 7 {
        law_seven_stages_load_the_hook((n - 1) as nat);
    }
}

/// A stage that goes wrong ends the loading, with a failure of its own, and nothing comes behind a
/// failure or behind success.
pub proof fn law_failures_end_the_loading(stage: InjectStage, failure: InjectFailure, succeeded: bool)
    ensures
        InjectStage::OpenProcess.next(false) == InjectStage::Failed(InjectFailure::OpenProcess),
        InjectStage::Allocate.next(false) == InjectStage::Failed(InjectFailure::Allocate),
        InjectStage::WritePath.next(false) == InjectStage::Failed(InjectFailure::WritePath),
        InjectStage::FindSystemLibrary.next(false) == InjectStage::Failed(
            InjectFailure::FindSystemLibrary,
        ),
        InjectStage::FindLoader.next(false) == InjectStage::Failed(InjectFailure::FindLoader),
        InjectStage::StartThread.next(false) == InjectStage::Failed(InjectFailure::StartThread),
        InjectStage::Wait.next(false) == InjectStage::Failed(InjectFailure::TimedOut),
        InjectStage::Failed(failure).next(succeeded) == InjectStage::Failed(failure),
        InjectStage::Loaded.next(succeeded) == InjectStage::Loaded,
        stage.next(true) is Failed ==> stage is Failed,
{
}

/// What was opened is closed: nothing while stages go well, up to the last; then, whether the thread
/// ended in time or not, the memory, the thread and the process. A failed allocation closes the
/// process, and a failed write frees the memory, too; no other failure closes anything.
pub proof fn law_what_is_undone(stage: InjectStage, succeeded: bool)
    ensures
        stage == InjectStage::Wait ==> stage.undone(succeeded) == (Cleanup {
            free_memory: true,
            close_thread: true,
            close_process: true,
        }),
        InjectStage::Allocate.undone(false) == (Cleanup {
            free_memory: false,
            close_thread: false,
            close_process: true,
        }),
        InjectStage::WritePath.undone(false) == (Cleanup {
            free_memory: true,
            close_thread: false,
            close_process: true,
        }),
        stage != InjectStage::Wait && (succeeded || (stage != InjectStage::Allocate && stage
            != InjectStage::WritePath)) ==> stage.undone(succeeded) == (Cleanup {
            free_memory: false,
            close_thread: false,
            close_process: false,
        }),
{
}

/// The hook's library is taken from next to the program if it is there, otherwise from the release
/// build, otherwise from the debug build; where it is nowhere, it is looked for next to the program.
pub proof fn law_hook_locations(next_to_program: bool, in_release: bool, in_debug: bool)
    ensures
        ({
            let place = first_location(next_to_program, in_release, in_debug);
            &&& (place == HookLocation::ReleaseBuild <==> in_release && !next_to_program)
            &&& (place == HookLocation::DebugBuild <==> in_debug && !in_release && !next_to_program)
            &&& (place == HookLocation::NextToProgram <==> next_to_program || (!in_release && !in_debug))
        }),
{
}

/// The messages of failures: the system's own words stand behind three of them.
pub proof fn law_failure_messages(detail: Seq<char>)
    ensures
        failure_message(InjectFailure::OpenProcess, detail) == "OpenProcess failed: "@ + detail,
        failure_message(InjectFailure::Allocate, detail) == "VirtualAllocEx failed"@,
        failure_message(InjectFailure::WritePath, detail) == "WriteProcessMemory failed"@,
        failure_message(InjectFailure::FindSystemLibrary, detail) == "GetModuleHandleA failed: "@ + detail,
        failure_message(InjectFailure::FindLoader, detail) == "GetProcAddress(LoadLibraryW) failed"@,
        failure_message(InjectFailure::StartThread, detail) == "CreateRemoteThread failed: "@ + detail,
        failure_message(InjectFailure::TimedOut, detail) == "Remote thread did not complete in time"@,
{
}

} // verus!
