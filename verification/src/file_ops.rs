//! Deleting files and finding out who keeps them open: what is asked of the system, what its
//! answers mean, and what the user is told.
use vstd::prelude::*;

use crate::text::{chars_of, owned, push_decimal, push_hex_upper, string_of};
use crate::wide::{from_wide, wide};

verus! {

use crate::text::{decimal, hex_upper, law_hex_reads_back, read_hex, utf16_lossy};
use crate::wide::encoded;

// ---------------------------------------------------------------------------------------------
// Deleting
// ---------------------------------------------------------------------------------------------

/// The list of paths that the system takes for deleting: the path, and two zeros at the end of the
/// list.
pub fn path_list(path: &str) -> (r: Vec<u16>)
    ensures
        r@ == encoded(path@).push(0).push(0),
{
    let mut out = wide(path);
    out.push(0);
    out
}

/// What the system did when it was asked to delete.
#[derive(Clone, Copy)]
pub enum ShellReply {
    /// It has no such service.
    Unsupported,
    /// It answered with a code, and said whether the operation was aborted.
    Answered { code: u32, aborted: bool },
}

/// Why nothing was deleted, if so.
pub open spec fn delete_error(path: Seq<char>, reply: ShellReply) -> Option<Seq<char>> {
    match reply {
        ShellReply::Unsupported => Some("仅支持 Windows"@),
        ShellReply::Answered { code, aborted } => if path.len() == 0 {
            Some("路径为空"@)
        } else if code != 0 {
            Some("删除失败（错误码 0x"@ + hex_upper(code as nat) + "）"@)
        } else if aborted {
            Some("操作被取消"@)
        } else {
            None
        },
    }
}

/// What came of moving `path` to the recycle bin. An empty path is not even tried.
pub fn delete_to_recycle_bin(path: &str, reply: ShellReply) -> (r: Result<(), String>)
    ensures
        match r {
            Ok(_) => delete_error(path@, reply) is None,
            Err(e) => delete_error(path@, reply) == Some(e@),
        },
{
    match reply {
        ShellReply::Unsupported => Err(owned("仅支持 Windows")),
        ShellReply::Answered { code, aborted } => {
            if path.is_empty() {
                return Err(owned("路径为空"));
            }
            if code != 0 {
                let mut e = owned("删除失败（错误码 0x");
                push_hex_upper(&mut e, code as u64);
                e.append("）");
                return Err(e);
            }
            if aborted {
                return Err(owned("操作被取消"));
            }
            Ok(())
        },
    }
}

/// What is asked of the system to show the properties of a file: the verb and the path, both with
/// a zero behind them.
pub struct PropertiesRequest {
    pub verb: Vec<u16>,
    pub file: Vec<u16>,
}

/// What to ask of the system to show the properties of what is at `path`; nothing for an empty
/// path.
pub fn open_properties(path: &str) -> (r: Option<PropertiesRequest>)
    ensures
        match r {
            Some(q) => path@.len() > 0 && q.verb@ == encoded("properties"@).push(0) && q.file@ == encoded(
                path@,
            ).push(0),
            None => path@.len() == 0,
        },
{
    if path.is_empty() {
        return None;
    }
    Some(PropertiesRequest { verb: wide("properties"), file: wide(path) })
}

/// Moving a file elsewhere and leaving a link behind cannot be done yet.
pub fn create_symlink_placeholder(source: &str, target_dir: &str) -> (r: Result<(), String>)
    ensures
        r is Err && r->Err_0@ == "去重/迁移到其他盘功能尚未实现"@,
{
    Err(owned("去重/迁移到其他盘功能尚未实现"))
}

// ---------------------------------------------------------------------------------------------
// Who keeps a file open
// ---------------------------------------------------------------------------------------------

/// A program or service that keeps a file open.
pub struct LockingProcess {
    pub pid: u32,
    /// The name that the user knows it by.
    pub app_name: String,
    /// The short name of a service.
    pub service_name: Option<String>,
}

/// What a [`LockingProcess`] says.
pub struct Holder {
    pub pid: u32,
    pub name: Seq<char>,
    pub service: Option<Seq<char>>,
}

impl View for LockingProcess {
    type V = Holder;

    open spec fn view(&self) -> Holder {
        Holder {
            pid: self.pid,
            name: self.app_name@,
            service: match self.service_name {
                Some(s) => Some(s@),
                None => None,
            },
        }
    }
}

pub open spec fn holders(v: Seq<LockingProcess>) -> Seq<Holder> {
    v.map_values(|p: LockingProcess| p@)
}

/// What the system says of a program or service: its number and two names, each with zeros behind
/// it.
pub struct ProcessInfo {
    pub pid: u32,
    pub app_name: Vec<u16>,
    pub service_name: Vec<u16>,
}

/// `s` without the zeros at its end.
pub open spec fn without_nuls(s: Seq<char>) -> Seq<char>
    decreases s.len(),
{
    if s.len() > 0 && s.last() == '\0' {
        without_nuls(s.drop_last())
    } else {
        s
    }
}

/// What to make of what the system says. Without a name it goes by its number.
pub open spec fn holder_of(i: ProcessInfo) -> Holder {
    let name = without_nuls(utf16_lossy(i.app_name@));
    let service = without_nuls(utf16_lossy(i.service_name@));
    Holder {
        pid: i.pid,
        name: if name.len() == 0 {
            "(PID "@ + decimal(i.pid as nat) + ")"@
        } else {
            name
        },
        service: if service.len() == 0 {
            None
        } else {
            Some(service)
        },
    }
}

fn trimmed_name(buf: &Vec<u16>) -> (r: String)
    ensures
        r@ == without_nuls(utf16_lossy(buf@)),
{
    let s = from_wide(buf.as_slice());
    let v = chars_of(s.as_str());
    let mut n: usize = v.len();
    assert(v@.take(n as int) =~= v@);
    while n > 0 && v[n - 1] == '\0'
        invariant
            n <= v@.len(),
            without_nuls(v@) == without_nuls(v@.take(n as int)),
        decreases n,
    {
        assert(v@.take(n as int).drop_last() =~= v@.take(n - 1));
        n = n - 1;
    }
    assert(v@.subrange(0, n as int) =~= v@.take(n as int));
    string_of(&v, 0, n)
}

fn process_of(i: &ProcessInfo) -> (r: LockingProcess)
    ensures
        r@ == holder_of(*i),
{
    let name = trimmed_name(&i.app_name);
    let service = trimmed_name(&i.service_name);
    let app_name = if name.as_str().is_empty() {
        let mut s = owned("(PID ");
        push_decimal(&mut s, i.pid as u64);
        s.append(")");
        s
    } else {
        name
    };
    let service_name = if service.as_str().is_empty() {
        None
    } else {
        Some(service)
    };
    LockingProcess { pid: i.pid, app_name, service_name }
}

/// What happened while asking who keeps some files open.
pub enum LockEvent {
    /// The question came up, for so many files.
    Asked(usize),
    /// The system was asked for a session, and answered with a code.
    SessionStarted(u32),
    /// The files were named to it.
    Registered(u32),
    /// It was asked how many hold them.
    Counted { code: u32, needed: u32 },
    /// It was asked who they are, and said so of the first `got`.
    Listed { code: u32, got: u32, infos: Vec<ProcessInfo> },
}

/// What to do next.
pub enum LockStep {
    StartSession,
    Register,
    AskHowMany,
    /// Ask for a list with room for so many.
    AskWho(u32),
    Done(Result<Vec<LockingProcess>, String>),
}

/// The system's word for success, and for a list that has no room for all.
pub const ERROR_SUCCESS: u32 = 0;
pub const ERROR_MORE_DATA: u32 = 234;

/// The first `got` of what the system listed.
pub open spec fn first_holders(infos: Seq<ProcessInfo>, got: nat) -> Seq<Holder> {
    Seq::new(
        if infos.len() <= got {
            infos.len()
        } else {
            got
        },
        |i: int| holder_of(infos[i]),
    )
}

/// Whether `step` ends with exactly these holders.
pub open spec fn ends_with(step: LockStep, hs: Seq<Holder>) -> bool {
    match step {
        LockStep::Done(Ok(v)) => holders(v@) == hs,
        _ => false,
    }
}

/// Whether `step` ends with the failure of `call` with `code`.
pub open spec fn fails_with(step: LockStep, call: Seq<char>, code: u32) -> bool {
    match step {
        LockStep::Done(Err(e)) => e@ == call + "失败（错误码 "@ + decimal(code as nat) + "）"@,
        _ => false,
    }
}

/// The step that follows an event.
pub open spec fn lock_step(event: LockEvent, step: LockStep) -> bool {
    match event {
        LockEvent::Asked(n) => if n == 0 {
            ends_with(step, Seq::empty())
        } else {
            step is StartSession
        },
        LockEvent::SessionStarted(code) => if code != ERROR_SUCCESS {
            fails_with(step, "RmStartSession "@, code)
        } else {
            step is Register
        },
        LockEvent::Registered(code) => if code != ERROR_SUCCESS {
            fails_with(step, "RmRegisterResources "@, code)
        } else {
            step is AskHowMany
        },
        LockEvent::Counted { code, needed } => if code != ERROR_SUCCESS && code != ERROR_MORE_DATA {
            fails_with(step, "RmGetList（探测数量）"@, code)
        } else if needed == 0 {
            ends_with(step, Seq::empty())
        } else {
            step == LockStep::AskWho(needed)
        },
        LockEvent::Listed { code, got, infos } => if code != ERROR_SUCCESS {
            fails_with(step, "RmGetList（取列表）"@, code)
        } else {
            ends_with(step, first_holders(infos@, got as nat))
        },
    }
}

fn failed(call: &str, code: u32) -> (r: LockStep)
    ensures
        fails_with(r, call@, code),
{
    let mut e = owned(call);
    e.append("失败（错误码 ");
    push_decimal(&mut e, code as u64);
    e.append("）");
    LockStep::Done(Err(e))
}

fn nobody() -> (r: LockStep)
    ensures
        ends_with(r, Seq::empty()),
{
    let v: Vec<LockingProcess> = Vec::new();
    assert(holders(v@) =~= Seq::empty());
    LockStep::Done(Ok(v))
}

/// Asks the system step by step who keeps some files open: given what happened last, says what to
/// do next. Nothing is closed or interrupted by that.
pub fn find_locking_processes(event: LockEvent) -> (step: LockStep)
    ensures
        lock_step(event, step),
{
    match event {
        LockEvent::Asked(n) => if n == 0 {
            nobody()
        } else {
            LockStep::StartSession
        },
        LockEvent::SessionStarted(code) => if code != ERROR_SUCCESS {
            failed("RmStartSession ", code)
        } else {
            LockStep::Register
        },
        LockEvent::Registered(code) => if code != ERROR_SUCCESS {
            failed("RmRegisterResources ", code)
        } else {
            LockStep::AskHowMany
        },
        LockEvent::Counted { code, needed } => if code != ERROR_SUCCESS && code != ERROR_MORE_DATA {
            failed("RmGetList（探测数量）", code)
        } else if needed == 0 {
            nobody()
        } else {
            LockStep::AskWho(needed)
        },
        LockEvent::Listed { code, got, infos } => {
            if code != ERROR_SUCCESS {
                return failed("RmGetList（取列表）", code);
            }
            let mut out: Vec<LockingProcess> = Vec::new();
            let mut i: usize = 0;
            while i < infos.len() && (i as u64) < got as u64
                invariant
                    i <= infos@.len(),
                    i <= got,
                    out@.len() == i,
                    forall|k: int| 0 <= k < i ==> (#[trigger] out@[k])@ == holder_of(infos@[k]),
                decreases infos@.len() - i,
            {
                out.push(process_of(&infos[i]));
                i = i + 1;
            }
            assert(holders(out@) =~= first_holders(infos@, got as nat));
            LockStep::Done(Ok(out))
        },
    }
}

/// A process as the user reads it.
pub open spec fn holder_text(h: Holder) -> Seq<char> {
    match h.service {
        Some(s) => h.name + "（服务 "@ + s + "，PID "@ + decimal(h.pid as nat) + "）"@,
        None => h.name + "（PID "@ + decimal(h.pid as nat) + "）"@,
    }
}

/// Processes as the user reads them, one after the other.
pub open spec fn holders_text(hs: Seq<Holder>) -> Seq<char>
    decreases hs.len(),
{
    if hs.len() == 0 {
        Seq::empty()
    } else if hs.len() == 1 {
        holder_text(hs[0])
    } else {
        holders_text(hs.drop_last()) + "、"@ + holder_text(hs.last())
    }
}

/// The sentence about who keeps a file open; nothing if nobody does.
pub open spec fn held_by(hs: Seq<Holder>) -> Seq<char> {
    if hs.len() == 0 {
        Seq::empty()
    } else {
        "被 "@ + holders_text(hs) + "占用"@
    }
}

fn push_holder(out: &mut String, p: &LockingProcess)
    ensures
        final(out)@ == old(out)@ + holder_text(p@),
{
    out.append(p.app_name.as_str());
    match &p.service_name {
        Some(s) => {
            out.append("（服务 ");
            out.append(s.as_str());
            out.append("，PID ");
        },
        None => {
            out.append("（PID ");
        },
    }
    push_decimal(out, p.pid as u64);
    out.append("）");
    assert(out@ =~= old(out)@ + holder_text(p@));
}

/// Who keeps a file open, in a sentence for the user; nothing if nobody does.
pub fn describe_locking_processes(procs: &[LockingProcess]) -> (r: String)
    ensures
        r@ == held_by(holders(procs@)),
{
    let ghost hs = holders(procs@);
    if procs.len() == 0 {
        return String::new();
    }
    let mut out = owned("被 ");
    let mut i: usize = 0;
    while i < procs.len()
        invariant
            i <= procs@.len(),
            hs == holders(procs@),
            out@ =~= "被 "@ + holders_text(hs.take(i as int)),
        decreases procs@.len() - i,
    {
        assert(hs.take(i + 1).drop_last() =~= hs.take(i as int));
        assert(hs.take(i + 1).last() == procs@[i as int]@);
        if i > 0 {
            out.append("、");
        }
        push_holder(&mut out, &procs[i]);
        i = i + 1;
    }
    assert(hs.take(i as int) =~= hs);
    out.append("占用");
    out
}

// ---------------------------------------------------------------------------------------------
// Trying again
// ---------------------------------------------------------------------------------------------

/// How often deleting is tried again.
pub const RETRIES: u32 = 3;

/// What to do after an attempt to delete.
pub enum RetryStep {
    /// It worked.
    Deleted,
    /// Wait for so many milliseconds, then try again.
    Wait(u64),
    /// Give up, and find out who keeps the file open; this is the last error.
    FindHolders(String),
}

/// What to do after attempt number `attempt`, the first being 0: what is in use for a moment only
/// is worth another try, and each wait is longer than the one before.
pub fn delete_to_recycle_bin_with_retry(attempt: u32, outcome: Result<(), String>) -> (step: RetryStep)
    ensures
        match outcome {
            Ok(_) => step is Deleted,
            Err(e) => if attempt < 3 {
                step == RetryStep::Wait((300 * (attempt + 1)) as u64)
            } else {
                step is FindHolders && step->FindHolders_0@ == e@
            },
        },
{
    match outcome {
        Ok(_) => RetryStep::Deleted,
        Err(e) => if attempt < RETRIES {
            RetryStep::Wait(300 * (attempt as u64 + 1))
        } else {
            RetryStep::FindHolders(e)
        },
    }
}

/// What the user is told when deleting failed for good: the last error, and who keeps the file
/// open if somebody is known to.
pub fn delete_failure(last_error: &str, found: &Result<Vec<LockingProcess>, String>) -> (r: String)
    ensures
        r@ == match *found {
            Ok(v) => if v@.len() > 0 {
                last_error@ + "；"@ + held_by(holders(v@))
            } else {
                last_error@
            },
            Err(_) => last_error@,
        },
{
    let mut out = owned(last_error);
    match found {
        Ok(v) => {
            if v.len() > 0 {
                out.append("；");
                let who = describe_locking_processes(v.as_slice());
                out.append(who.as_str());
            }
        },
        Err(_) => {},
    }
    out
}

// ---------------------------------------------------------------------------------------------
// What the answers of the system come to
// ---------------------------------------------------------------------------------------------

/// Something was deleted exactly if there was a path, the system answered, its code was 0 and nothing
/// was aborted.
pub proof fn law_deleted_means_the_system_did_it(path: Seq<char>, reply: ShellReply)
    ensures
        delete_error(path, reply) is None <==> path.len() > 0 && reply == (ShellReply::Answered {
            code: 0,
            aborted: false,
        }),
{
}

/// Whether a text has a number in hexadecimal in it, behind `0x` and before a bracket.
pub open spec fn tells_code(s: Seq<char>, code: u32) -> bool {
    exists|a: int, b: int|
        2 <= a < b < s.len() && read_hex(#[trigger] s.subrange(a, b)) == code && s[a - 2] == '0' && s[a - 1] == 'x'
            && s[b] == '）'
}

/// Where the system gave a code, the user is told that code.
pub proof fn law_codes_are_told(path: Seq<char>, code: u32, aborted: bool)
    requires
        path.len() > 0,
        code != 0,
    ensures
        delete_error(path, ShellReply::Answered { code, aborted }) is Some,
        tells_code(delete_error(path, ShellReply::Answered { code, aborted })->0, code),
{
    reveal_strlit("删除失败（错误码 0x");
    reveal_strlit("）");
    law_hex_reads_back(code as nat);
    let head = "删除失败（错误码 0x"@;
    let h = hex_upper(code as nat);
    let e = head + h + "）"@;
    assert(delete_error(path, ShellReply::Answered { code, aborted }) == Some(e));
    let a = head.len() as int;
    let b = a + h.len();
    assert(e.subrange(a, b) =~= h);
    assert(e[a - 1] == 'x' && e[a - 2] == '0');
    assert(e[b] == '）');
}

/// Names lose the zeros behind them and nothing else.
pub proof fn law_names_lose_their_zeros(name: Seq<char>, n: nat)
    requires
        name.len() == 0 || name.last() != '\0',
    ensures
        without_nuls(name + Seq::new(n, |i: int| '\0')) == name,
    decreases n,
{
    let z = Seq::new(n, |i: int| '\0');
    if n == 0 {
        assert(name + z =~= name);
    } else {
        let less = Seq::new((n - 1) as nat, |i: int| '\0');
        assert((name + z).drop_last() =~= name + less);
        assert((name + z).last() == '\0');
        law_names_lose_their_zeros(name, (n - 1) as nat);
    }
}

/// Whoever keeps a file open is named with the number and the names that the system gave; one without
/// a name goes by its number, and an empty name of a service is none.
pub proof fn law_holders_are_as_the_system_says(i: ProcessInfo, name: Seq<char>, service: Seq<char>)
    requires
        without_nuls(utf16_lossy(i.app_name@)) == name,
        without_nuls(utf16_lossy(i.service_name@)) == service,
    ensures
        holder_of(i).pid == i.pid,
        name.len() > 0 ==> holder_of(i).name == name,
        name.len() == 0 ==> holder_of(i).name == "(PID "@ + decimal(i.pid as nat) + ")"@,
        service.len() > 0 ==> holder_of(i).service == Some(service),
        service.len() == 0 ==> holder_of(i).service is None,
{
}

/// The system is asked in four steps, each only after the one before it worked; a list that is said to
/// have no room for all is no failure when the number is asked for. Where nobody keeps the files open,
/// or no files are asked about, nothing more is asked.
pub proof fn law_questions_follow_one_another(event: LockEvent, step: LockStep)
    requires
        lock_step(event, step),
    ensures
        step is StartSession ==> (event matches LockEvent::Asked(n) && n > 0),
        step is Register ==> event == LockEvent::SessionStarted(0),
        step is AskHowMany ==> event == LockEvent::Registered(0),
        step is AskWho ==> (event matches LockEvent::Counted { code, needed } && needed > 0 && step == LockStep::AskWho(
            needed,
        ) && (code == 0 || code == 234)),
        event == LockEvent::Asked(0) ==> step is Done && step->Done_0 is Ok && (step->Done_0->Ok_0)@.len() == 0,
        (event matches LockEvent::Counted { code, needed } && code == 0 && needed == 0) ==> step is Done && step->Done_0 is Ok
            && (step->Done_0->Ok_0)@.len() == 0,
        (event matches LockEvent::Listed { code, got, infos } && code == 0) ==> step is Done && step->Done_0 is Ok,
{
    match step {
        LockStep::Done(Ok(v)) => {
            assert(holders(v@).len() == v@.len());
        },
        _ => {},
    }
}

/// The list of who keeps a file open has those that the system listed, in their order, up to the
/// number that it says it gave.
pub proof fn law_listed_holders_are_told(got: u32, infos: Vec<ProcessInfo>, step: LockStep, k: int)
    requires
        lock_step(LockEvent::Listed { code: 0, got, infos }, step),
        0 <= k < infos@.len(),
        k < got,
    ensures
        step is Done && step->Done_0 is Ok,
        (step->Done_0->Ok_0)@.len() <= infos@.len(),
        k < (step->Done_0->Ok_0)@.len(),
        (step->Done_0->Ok_0)@[k]@ == holder_of(infos@[k]),
{
    let v = step->Done_0->Ok_0;
    assert(holders(v@).len() == v@.len());
    assert(holders(v@)[k] == v@[k]@);
}

} // verus!
