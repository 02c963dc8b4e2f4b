//! The application state behind the window: which pane is shown, and the
//! chat client's session.
//!
//! The window itself (panels, labels, the render loop) belongs to the
//! presentation shell; it reads this state, forwards pane clicks to `select`,
//! and hands text submissions and transport events to the chat session.

use vstd::prelude::*;

use crate::client::ChatApp;
use crate::client::ConnectionState;

verus! {

/// Which pane the window shows.
#[derive(Clone, Copy, Debug, PartialEq, Eq, Structural)]
pub enum AppType {
    /// The chat pane.
    ChatApp,
    /// The log pane.
    LoggerApp,
}

/// The application: the pane toggle and the chat session. The log pane's
/// ring buffer is presentation-side and lives with the shell.
pub struct App {
    /// The pane currently shown.
    pub application: AppType,
    /// The chat client's session state.
    pub chat_app: ChatApp,
}

impl App {
    /// A fresh application: the chat pane selected, and a disconnected chat
    /// session with an empty nickname, mirror and history.
    pub fn new() -> (app: App)
        ensures
            app.application == AppType::ChatApp,
            app.chat_app.wf(),
            app.chat_app@.state == ConnectionState::Disconnected,
            app.chat_app@.nick =~= Seq::<char>::empty(),
            app.chat_app@.mirror =~= Seq::<(crate::model::Addr, Seq<char>)>::empty(),
            app.chat_app@.history =~= Seq::<(crate::model::Addr, Seq<char>)>::empty(),
    {
        App { application: AppType::ChatApp, chat_app: ChatApp::new(String::new()) }
    }

    /// The top-bar toggle: shows the chosen pane and touches nothing else.
    pub fn select(&mut self, which: AppType)
        ensures
            final(self).application == which,
            final(self).chat_app == old(self).chat_app,
    {
        self.application = which;
    }
}

} // verus!
