//! What the command-line client decides before it calls the daemon.
use crate::domain::time;
use crate::domain::PriorityClass;
use crate::text;
use vstd::prelude::*;

verus! {

/// The class that goes by this name, if any.
pub open spec fn class_named(name: Seq<char>) -> Option<PriorityClass> {
    if name == "low"@ {
        Some(PriorityClass::Low)
    } else if name == "normal"@ {
        Some(PriorityClass::Normal)
    } else if name == "high"@ {
        Some(PriorityClass::High)
    } else if name == "urgent"@ {
        Some(PriorityClass::Urgent)
    } else {
        None
    }
}

/// The name in lower case.
pub open spec fn lower_case(name: Seq<char>) -> Seq<char> {
    name.map_values(|c: char| text::lowered(c))
}

/// Reads a class name, in upper or lower case.
///
/// # Errors
/// A message that quotes the name in lower case and lists the four there are.
pub fn class(name: &str) -> (read: Result<PriorityClass, String>)
    ensures
        match class_named(lower_case(name@)) {
            Some(class) => read == Ok::<_, String>(class),
            None => read matches Err(message) && message@ == text::complaint(
                "class"@,
                lower_case(name@),
                "low|normal|high|urgent"@,
            ),
        },
{
    let lower: String = text::to_ascii_lowercase(name);
    let lower: &str = lower.as_str();
    if text::same_text(lower, "low") {
        Ok(PriorityClass::Low)
    } else if text::same_text(lower, "normal") {
        Ok(PriorityClass::Normal)
    } else if text::same_text(lower, "high") {
        Ok(PriorityClass::High)
    } else if text::same_text(lower, "urgent") {
        Ok(PriorityClass::Urgent)
    } else {
        Err(text::complain("class", lower, "low|normal|high|urgent"))
    }
}

/// What a submitted job is to do.
#[derive(Debug)]
pub enum Task {
    /// Sleep for this many milliseconds.
    Sleep(u64),
    /// Run this program with these arguments.
    Command(Vec<String>),
}

/// Picks the task of a submit from its two options.
///
/// # Errors
/// A message when neither was given, or both.
pub fn task(sleep: Option<u64>, command: Option<Vec<String>>) -> (picked: Result<Task, String>)
    ensures
        match (sleep, command) {
            (Some(millis), None) => picked == Ok::<_, String>(Task::Sleep(millis)),
            (None, Some(words)) => picked == Ok::<_, String>(Task::Command(words)),
            _ => picked matches Err(message) && message@
                == "exactly one of --sleep or --cmd is required"@,
        },
{
    match (sleep, command) {
        (Some(millis), None) => Ok(Task::Sleep(millis)),
        (None, Some(words)) => Ok(Task::Command(words)),
        _ => Err("exactly one of --sleep or --cmd is required".to_owned()),
    }
}

/// A walltime limit in nanoseconds, for one in seconds; clamped on overflow.
#[must_use]
pub fn walltime_nanos(seconds: u64) -> (nanos: u64)
    ensures
        nanos == time::clamped_product(seconds, 1_000_000_000),
{
    time::saturating_product(seconds, 1_000_000_000)
}

/// How a worker is listed: its name, or a dash if it has none, and the millicores
/// it has to spare, none when more is allocated than it declares.
pub fn node_row(name: String, capacity_cpu: u32, allocated_cpu: u32) -> (row: (String, u32))
    ensures
        row.0@ == (if name@.len() == 0 {
            "-"@
        } else {
            name@
        }),
        row.1 == (if allocated_cpu > capacity_cpu {
            0
        } else {
            capacity_cpu - allocated_cpu
        }),
{
    let spare: u32 = capacity_cpu.saturating_sub(allocated_cpu);
    if name.as_str().unicode_len() == 0 {
        ("-".to_owned(), spare)
    } else {
        (name, spare)
    }
}

} // verus!
