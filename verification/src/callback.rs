//! A redirector that hands what it intercepts to callbacks, and that can be
//! started and stopped.

use vstd::prelude::*;

verus! {

/// Why a redirector was not started.
#[derive(Debug, Clone, Copy, PartialEq, Eq, Structural)]
pub enum StartError {
    AlreadyRunning,
}

/// A redirector with a callback of type `P` for packets, one of type `I` for
/// configurations, and a channel of type `T` to its event loop.
pub struct WindowsRedirector<P, I, T> {
    running: bool,
    event_tx: Option<T>,
    packet_callback: Option<P>,
    intercept_conf_callback: Option<I>,
}

/// The value of a [`WindowsRedirector`].
pub struct WindowsRedirectorView<P, I, T> {
    pub running: bool,
    pub event_tx: Option<T>,
    pub packet_callback: Option<P>,
    pub intercept_conf_callback: Option<I>,
}

impl<P, I, T> View for WindowsRedirector<P, I, T> {
    type V = WindowsRedirectorView<P, I, T>;

    closed spec fn view(&self) -> WindowsRedirectorView<P, I, T> {
        WindowsRedirectorView {
            running: self.running,
            event_tx: self.event_tx,
            packet_callback: self.packet_callback,
            intercept_conf_callback: self.intercept_conf_callback,
        }
    }
}

impl<P, I, T> WindowsRedirectorView<P, I, T> {
    /// A redirector that has not been started.
    pub open spec fn fresh() -> WindowsRedirectorView<P, I, T> {
        WindowsRedirectorView {
            running: false,
            event_tx: None,
            packet_callback: None,
            intercept_conf_callback: None,
        }
    }

    /// The redirector with a callback for packets.
    pub open spec fn with_packet_callback(self, callback: P) -> WindowsRedirectorView<P, I, T> {
        WindowsRedirectorView { packet_callback: Some(callback), ..self }
    }

    /// The redirector with a callback for configurations.
    pub open spec fn with_intercept_conf_callback(self, callback: I) -> WindowsRedirectorView<
        P,
        I,
        T,
    > {
        WindowsRedirectorView { intercept_conf_callback: Some(callback), ..self }
    }

    /// The redirector on its way to running, if it is not running already.
    pub open spec fn starting(self, event_tx: T) -> Result<
        WindowsRedirectorView<P, I, T>,
        StartError,
    > {
        if self.running {
            Err(StartError::AlreadyRunning)
        } else {
            Ok(WindowsRedirectorView { event_tx: Some(event_tx), ..self })
        }
    }

    /// The redirector once its event loop has taken the callbacks over.
    pub open spec fn started(self) -> WindowsRedirectorView<P, I, T> {
        WindowsRedirectorView {
            running: true,
            packet_callback: None,
            intercept_conf_callback: None,
            ..self
        }
    }

    pub open spec fn stopped(self) -> WindowsRedirectorView<P, I, T> {
        WindowsRedirectorView { running: false, event_tx: None, ..self }
    }
}

impl<P, I, T> WindowsRedirector<P, I, T> {
    pub fn new() -> (result: Self)
        ensures
            result@ == WindowsRedirectorView::<P, I, T>::fresh(),
    {
        WindowsRedirector {
            running: false,
            event_tx: None,
            packet_callback: None,
            intercept_conf_callback: None,
        }
    }

    pub fn set_packet_callback(&mut self, callback: P)
        ensures
            final(self)@ == old(self)@.with_packet_callback(callback),
    {
        self.packet_callback = Some(callback);
    }

    pub fn set_intercept_conf_callback(&mut self, callback: I)
        ensures
            final(self)@ == old(self)@.with_intercept_conf_callback(callback),
    {
        self.intercept_conf_callback = Some(callback);
    }

    /// Begins to start the redirector, whose event loop is reached through
    /// `event_tx`. The driver is opened next; until [`Self::run`] the redirector
    /// does not run.
    pub fn start(&mut self, event_tx: T) -> (result: Result<(), StartError>)
        ensures
            match old(self)@.starting(event_tx) {
                Ok(starting) => result is Ok && final(self)@ == starting,
                Err(e) => result == Err::<(), StartError>(e) && final(self)@ == old(self)@,
            },
    {
        if self.running {
            return Err(StartError::AlreadyRunning);
        }
        self.event_tx = Some(event_tx);
        Ok(())
    }

    /// Completes the start. The callbacks go to the event loop.
    pub fn run(&mut self) -> (callbacks: (Option<P>, Option<I>))
        ensures
            final(self)@ == old(self)@.started(),
            callbacks == (old(self)@.packet_callback, old(self)@.intercept_conf_callback),
    {
        self.running = true;
        (self.packet_callback.take(), self.intercept_conf_callback.take())
    }

    pub fn stop(&mut self)
        ensures
            final(self)@ == old(self)@.stopped(),
    {
        self.running = false;
        self.event_tx = None;
    }

    pub fn is_running(&self) -> (result: bool)
        ensures
            result == self@.running,
    {
        self.running
    }
}

/// A redirector that runs cannot be started again before it is stopped, and can
/// be afterwards. The callbacks are handed out once: they have to be set anew.
pub proof fn lemma_restart<P, I, T>(
    redirector: WindowsRedirectorView<P, I, T>,
    first: T,
    second: T,
)
    requires
        redirector.starting(first) is Ok,
    ensures
        ({
            let running = redirector.starting(first)->Ok_0.started();
            &&& running.running
            &&& running.starting(second) == Err::<WindowsRedirectorView<P, I, T>, StartError>(
                StartError::AlreadyRunning,
            )
            &&& running.stopped().starting(second) is Ok
            &&& running.stopped() == WindowsRedirectorView::<P, I, T>::fresh()
        }),
{
}

/// What starting and stopping do to each part: a start brings the channel, the
/// event loop takes the callbacks, a stop takes the channel.
pub proof fn lemma_parts_of_a_redirector<P, I, T>(
    redirector: WindowsRedirectorView<P, I, T>,
    event_tx: T,
)
    ensures
        ({
            let fresh = WindowsRedirectorView::<P, I, T>::fresh();
            &&& !fresh.running
            &&& fresh.event_tx is None
            &&& fresh.packet_callback is None
            &&& fresh.intercept_conf_callback is None
        }),
        redirector.running <==> redirector.starting(event_tx) is Err,
        redirector.starting(event_tx) matches Ok(starting) ==> {
            &&& !starting.running
            &&& starting.event_tx == Some(event_tx)
            &&& starting.packet_callback == redirector.packet_callback
            &&& starting.intercept_conf_callback == redirector.intercept_conf_callback
        },
        redirector.started().running,
        redirector.started().event_tx == redirector.event_tx,
        redirector.started().packet_callback is None,
        redirector.started().intercept_conf_callback is None,
        !redirector.stopped().running,
        redirector.stopped().event_tx is None,
        redirector.stopped().packet_callback == redirector.packet_callback,
        redirector.stopped().intercept_conf_callback == redirector.intercept_conf_callback,
{
}

/// The callback that was set last is the one that is called, and the two
/// callbacks do not get in each other's way.
pub proof fn lemma_last_callback_counts<P, I, T>(
    redirector: WindowsRedirectorView<P, I, T>,
    packet: P,
    intercept_conf: I,
)
    ensures
        ({
            let set = redirector.with_packet_callback(packet);
            &&& set.packet_callback == Some(packet)
            &&& set.intercept_conf_callback == redirector.intercept_conf_callback
            &&& set.running == redirector.running
            &&& set.event_tx == redirector.event_tx
        }),
        ({
            let set = redirector.with_intercept_conf_callback(intercept_conf);
            &&& set.intercept_conf_callback == Some(intercept_conf)
            &&& set.packet_callback == redirector.packet_callback
            &&& set.running == redirector.running
            &&& set.event_tx == redirector.event_tx
        }),
{
}

} // verus!
