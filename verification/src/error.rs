use vstd::prelude::*;
use vstd::string::*;

verus! {

/// What can go wrong while talking to the compositor or planning a change.
#[derive(Debug)]
pub enum ClientError {
    Connection { msg: String },
    Binding { msg: String },
    Dispatch { msg: String },
    Display { msg: String },
    General { msg: String },
}

/// The kind of a [`ClientError`] together with its message.
pub enum ClientErrorView {
    Connection(Seq<char>),
    Binding(Seq<char>),
    Dispatch(Seq<char>),
    Display(Seq<char>),
    General(Seq<char>),
}

impl View for ClientError {
    type V = ClientErrorView;

    open spec fn view(&self) -> ClientErrorView {
        match self {
            ClientError::Connection { msg } => ClientErrorView::Connection(msg@),
            ClientError::Binding { msg } => ClientErrorView::Binding(msg@),
            ClientError::Dispatch { msg } => ClientErrorView::Dispatch(msg@),
            ClientError::Display { msg } => ClientErrorView::Display(msg@),
            ClientError::General { msg } => ClientErrorView::General(msg@),
        }
    }
}

/// The text shown for an error of the given kind and message.
pub open spec fn error_text(e: ClientErrorView) -> Seq<char> {
    match e {
        ClientErrorView::Connection(m) => "failed to connect to wayland server: "@ + m,
        ClientErrorView::Binding(m) => "failed to bind to wayland object: "@ + m,
        ClientErrorView::Dispatch(m) => "failed to dispatch message: "@ + m,
        ClientErrorView::Display(m) => "failed to render on display: "@ + m,
        ClientErrorView::General(m) => m,
    }
}

impl ClientError {
    /// An error that does not come from the protocol itself.
    pub fn general(msg: String) -> (r: ClientError)
        ensures
            r@ == ClientErrorView::General(msg@),
    {
        ClientError::General { msg }
    }

    /// An error that does not come from the protocol itself, from a message slice.
    pub fn from_message(msg: &str) -> (r: ClientError)
        ensures
            r@ == ClientErrorView::General(msg@),
    {
        ClientError::General { msg: String::from_str(msg) }
    }

    /// The text describing the error, as the command line shows it.
    pub fn message(&self) -> (r: String)
        ensures
            r@ == error_text(self@),
    {
        match self {
            ClientError::Connection { msg } => String::from_str("failed to connect to wayland server: ").concat(msg.as_str()),
            ClientError::Binding { msg } => String::from_str("failed to bind to wayland object: ").concat(msg.as_str()),
            ClientError::Dispatch { msg } => String::from_str("failed to dispatch message: ").concat(msg.as_str()),
            ClientError::Display { msg } => String::from_str("failed to render on display: ").concat(msg.as_str()),
            ClientError::General { msg } => msg.clone(),
        }
    }
}

} // verus!
