//! Transient notifications: a short message with a fixed display duration.
//! Time enters as a plain millisecond count supplied by the caller, so the
//! expiry decision is a pure function of the two instants.
use vstd::prelude::*;

verus! {

/// The flavor of a toast, deciding its styling.
#[derive(Clone, Copy, Debug, PartialEq, Eq, Structural)]
pub enum ToastVariant {
    Error,
    Success,
}

/// A transient notification: its text, the instant (in milliseconds) it was
/// created, how long it stays, and its variant.
#[derive(Debug)]
pub struct Toast {
    pub message: String,
    pub created_at: u64,
    pub duration: u64,
    pub variant: ToastVariant,
}

impl Toast {
    /// A toast of the given variant, created at `now_ms`, shown for three
    /// seconds.
    pub fn new(message: String, variant: ToastVariant, now_ms: u64) -> (t: Toast)
        ensures
            t.message@ == message@,
            t.created_at == now_ms,
            t.duration == 3000,
            t.variant == variant,
    {
        Toast { message, created_at: now_ms, duration: 3000, variant }
    }

    /// An error toast.
    pub fn error(message: String, now_ms: u64) -> (t: Toast)
        ensures
            t.message@ == message@,
            t.created_at == now_ms,
            t.duration == 3000,
            t.variant == ToastVariant::Error,
    {
        Toast::new(message, ToastVariant::Error, now_ms)
    }

    /// A success toast.
    pub fn success(message: String, now_ms: u64) -> (t: Toast)
        ensures
            t.message@ == message@,
            t.created_at == now_ms,
            t.duration == 3000,
            t.variant == ToastVariant::Success,
    {
        Toast::new(message, ToastVariant::Success, now_ms)
    }

    /// Whether the toast has outlived its duration at the instant `now_ms`.
    pub fn is_expired(&self, now_ms: u64) -> (r: bool)
        ensures
            r == (now_ms > self.created_at + self.duration),
    {
        if now_ms >= self.created_at {
            let elapsed = now_ms - self.created_at;
            elapsed > self.duration
        } else {
            false
        }
    }
}

} // verus!
