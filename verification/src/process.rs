//! Processes, and what is done with the packets of their connections.

use vstd::prelude::*;

verus! {

/// A process, as far as it could be identified.
#[derive(Debug)]
pub struct ProcessInfo {
    pub pid: u32,
    pub process_name: Option<String>,
}

/// The value of a [`ProcessInfo`].
pub struct ProcessView {
    pub pid: u32,
    pub process_name: Option<Seq<char>>,
}

impl View for ProcessInfo {
    type V = ProcessView;

    open spec fn view(&self) -> ProcessView {
        ProcessView {
            pid: self.pid,
            process_name: match self.process_name {
                Some(name) => Some(name@),
                None => None,
            },
        }
    }
}

impl Clone for ProcessInfo {
    fn clone(&self) -> (result: ProcessInfo)
        ensures
            result@ == self@,
    {
        let process_name = match &self.process_name {
            Some(name) => Some(name.clone()),
            None => None,
        };
        ProcessInfo { pid: self.pid, process_name }
    }
}

/// What is done with the packets that travel in one direction of a connection.
#[derive(Debug)]
pub enum ConnectionAction {
    /// Send them on their way.
    Forward,
    /// Take them out, on behalf of the process that the connection belongs to.
    Intercept(ProcessInfo),
}

/// The value of a [`ConnectionAction`].
pub enum ActionView {
    Forward,
    Intercept(ProcessView),
}

impl View for ConnectionAction {
    type V = ActionView;

    open spec fn view(&self) -> ActionView {
        match self {
            ConnectionAction::Forward => ActionView::Forward,
            ConnectionAction::Intercept(process_info) => ActionView::Intercept(process_info@),
        }
    }
}

impl Clone for ConnectionAction {
    fn clone(&self) -> (result: ConnectionAction)
        ensures
            result@ == self@,
    {
        match self {
            ConnectionAction::Forward => ConnectionAction::Forward,
            ConnectionAction::Intercept(process_info) => ConnectionAction::Intercept(
                process_info.clone(),
            ),
        }
    }
}

impl ConnectionAction {
    /// What follows from the verdict on a process.
    pub open spec fn of_verdict(process_info: ProcessView, intercept: bool) -> ActionView {
        if intercept {
            ActionView::Intercept(process_info)
        } else {
            ActionView::Forward
        }
    }

    pub fn from_verdict(process_info: ProcessInfo, intercept: bool) -> (result: ConnectionAction)
        ensures
            result@ == ConnectionAction::of_verdict(process_info@, intercept),
    {
        if intercept {
            ConnectionAction::Intercept(process_info)
        } else {
            ConnectionAction::Forward
        }
    }
}

} // verus!
