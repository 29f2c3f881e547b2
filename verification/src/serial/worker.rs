//! The serial link's decision logic. The I/O loop (opening the port, reading
//! and writing bytes, listing ports) runs outside the library; it hands each
//! command and each outcome to a `SerialSession`, which says what to do next
//! and which events to report.

use vstd::prelude::*;

use crate::telemetry::packet::{build_command_frame, Command, Telemetry, SYNC_END};
use crate::telemetry::parser::{feed_result, StreamParser};

verus! {

/// What the user interface asks of the serial link.
pub enum SerialCommand {
    Connect { port: String, baud: u32 },
    Disconnect,
    SendCommand(Command),
}

/// What the serial link reports to the user interface.
pub enum SerialEvent {
    Connected(String),
    Disconnected,
    Error(String),
    Packet(Box<Telemetry>),
    PortList(Vec<String>),
}

/// The I/O the loop must perform next.
pub enum SerialAction {
    OpenPort { port: String, baud: u32 },
    ClosePort,
    Write([u8; 5]),
    Nothing,
}

/// The serial link's state: whether a port is open, and the framer for the
/// bytes read from it.
pub struct SerialSession {
    parser: StreamParser,
    connected: bool,
}

impl SerialSession {
    /// Whether a port is open.
    pub closed spec fn is_connected(&self) -> bool {
        self.connected
    }

    /// The bytes read and not yet framed.
    pub closed spec fn buffered(&self) -> Seq<u8> {
        self.parser@
    }

    /// A session with no port open.
    pub fn new() -> (s: Self)
        ensures
            !s.is_connected(),
            s.buffered() == Seq::<u8>::empty(),
    {
        Self { parser: StreamParser::new(), connected: false }
    }

    /// Whether a port is open.
    pub fn connected(&self) -> (c: bool)
        ensures
            c == self.is_connected(),
    {
        self.connected
    }

    /// Decides what a command asks for. Connecting asks to open the port (the
    /// outcome is reported through `on_open_result`); disconnecting closes
    /// the port and reports it; sending a command writes its frame when a
    /// port is open and does nothing otherwise.
    pub fn on_command(&mut self, cmd: SerialCommand) -> (r: (SerialAction, Option<SerialEvent>))
        ensures
            match cmd {
                SerialCommand::Connect { port, baud } => {
                    &&& r.0 matches SerialAction::OpenPort { port: p, baud: b } && p@ == port@ && b
                        == baud
                    &&& r.1 is None
                    &&& final(self).is_connected() == old(self).is_connected()
                    &&& final(self).buffered() == old(self).buffered()
                },
                SerialCommand::Disconnect => {
                    &&& r.0 is ClosePort
                    &&& r.1 matches Some(SerialEvent::Disconnected)
                    &&& !final(self).is_connected()
                    &&& final(self).buffered() == old(self).buffered()
                },
                SerialCommand::SendCommand(c) => {
                    &&& (old(self).is_connected() ==> (r.0 matches SerialAction::Write(f) && f@
                        == seq![0xFEu8, 0xCAu8, c.code(), 0x00u8, SYNC_END]))
                    &&& (!old(self).is_connected() ==> r.0 is Nothing)
                    &&& r.1 is None
                    &&& final(self).is_connected() == old(self).is_connected()
                    &&& final(self).buffered() == old(self).buffered()
                },
            },
    {
        match cmd {
            SerialCommand::Connect { port, baud } => (SerialAction::OpenPort { port, baud }, None),
            SerialCommand::Disconnect => {
                self.connected = false;
                (SerialAction::ClosePort, Some(SerialEvent::Disconnected))
            },
            SerialCommand::SendCommand(c) => {
                if self.connected {
                    (SerialAction::Write(build_command_frame(c)), None)
                } else {
                    (SerialAction::Nothing, None)
                }
            },
        }
    }

    /// Takes the outcome of opening `port`. On success the session is
    /// connected with a fresh framer and reports the port; on failure it
    /// reports the error and is otherwise unchanged.
    pub fn on_open_result(&mut self, port: String, result: Result<(), String>) -> (e: SerialEvent)
        ensures
            match result {
                Ok(()) => {
                    &&& e matches SerialEvent::Connected(p) && p@ == port@
                    &&& final(self).is_connected()
                    &&& final(self).buffered() == Seq::<u8>::empty()
                },
                Err(msg) => {
                    &&& e matches SerialEvent::Error(m) && m@ == msg@
                    &&& final(self).is_connected() == old(self).is_connected()
                    &&& final(self).buffered() == old(self).buffered()
                },
            },
    {
        match result {
            Ok(()) => {
                self.connected = true;
                self.parser = StreamParser::new();
                SerialEvent::Connected(port)
            },
            Err(msg) => SerialEvent::Error(msg),
        }
    }

    /// Takes bytes read from the port and reports every packet they complete,
    /// in stream order.
    pub fn on_bytes(&mut self, data: &[u8]) -> (events: Vec<SerialEvent>)
        requires
            old(self).buffered().len() + data@.len() <= usize::MAX,
        ensures
            final(self).buffered() == feed_result(old(self).buffered(), data@).0,
            final(self).is_connected() == old(self).is_connected(),
            events@.len() == feed_result(old(self).buffered(), data@).1.len(),
            forall|i: int|
                0 <= i < events@.len() ==> (#[trigger] events@[i] matches SerialEvent::Packet(p)
                    && p.decodes(feed_result(old(self).buffered(), data@).1[i])),
    {
        let packets = self.parser.feed(data);
        let n = packets.len();
        let mut events: Vec<SerialEvent> = Vec::with_capacity(n);
        let mut i: usize = 0;
        while i < n
            invariant
                n == packets@.len(),
                i <= n,
                events@.len() == i,
                forall|k: int|
                    0 <= k < i ==> (#[trigger] events@[k] matches SerialEvent::Packet(p) && *p
                        == packets@[k]),
            decreases n - i,
        {
            events.push(SerialEvent::Packet(Box::new(packets[i])));
            i = i + 1;
        }
        events
    }

    /// Takes a failed read. A timeout is not an error; any other failure is
    /// reported, and the port is considered closed.
    pub fn on_read_error(&mut self, timed_out: bool, message: String) -> (events: Vec<SerialEvent>)
        ensures
            timed_out ==> events@.len() == 0 && final(self).is_connected()
                == old(self).is_connected(),
            !timed_out ==> events@.len() == 2 && (events@[0] matches SerialEvent::Error(m) && m@
                == message@) && events@[1] is Disconnected && !final(self).is_connected(),
            final(self).buffered() == old(self).buffered(),
    {
        let mut events: Vec<SerialEvent> = Vec::new();
        if !timed_out {
            self.connected = false;
            events.push(SerialEvent::Error(message));
            events.push(SerialEvent::Disconnected);
        }
        events
    }
}

} // verus!
