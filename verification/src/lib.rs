//! A TCP engine with a BSD-like socket surface, driven by segments and timers that the host
//! supplies. The engine owns no sockets, threads or clocks: every operation runs to completion
//! on the caller's thread and leaves outbound segments and timer requests for the host.
//!
//! A [`Dependencies`] object gives the engine the time and takes its timer requests. A
//! timer request is a value, not a callback: when its time has come, the host hands it to
//! [`TcpState::on_timer`], and the engine decides whether it still applies.
//!
//! ```
//! use std::cell::RefCell;
//! use tcp::{Dependencies, Endpoint, TcpFlags, TcpState, Timer};
//!
//! #[derive(Default)]
//! struct Host {
//!     timers: RefCell<Vec<(u64, Timer)>>,
//! }
//!
//! impl Dependencies for Host {
//!     fn register_timer(&self, time: u64, timer: Timer) {
//!         self.timers.borrow_mut().push((time, timer));
//!     }
//!
//!     fn current_time(&self) -> u64 {
//!         0
//!     }
//!
//!     fn fork(&self) -> Self {
//!         Host::default()
//!     }
//! }
//!
//! let mut state = TcpState::new(Host::default());
//!
//! // connect to port 80
//! let dst = Endpoint { ip: 0x7F00_0001, port: 80 };
//! state.connect(dst, || {
//!     // here the network interface would be asked for an unused port
//!     let bind = Endpoint { ip: 0x7F00_0001, port: 2532 };
//!     Ok::<_, ()>((bind, ()))
//! }).unwrap();
//!
//! // get the SYN of the connect
//! let (header, _payload) = state.pop_packet().unwrap();
//! assert!(header.flags.contains(TcpFlags::SYN));
//! assert_eq!(header.dst(), dst);
//! ```
//!
//! The modules, from the leaves up: [`seq`] has the arithmetic of sequence numbers,
//! [`flags`] and [`header`] describe a segment, [`timer`] and [`rtt`] deal with time,
//! [`send_buffer`] and [`recv_buffer`] hold the two byte streams of a connection,
//! [`connection`] is one connection with all its states, [`listen`] is the listening state
//! with its accept queue, and [`state`] is the socket surface. [`laws`], [`well_formed`],
//! [`delivery`], [`trace`], [`transfer`], [`handshake`] and [`session`] hold what is
//! proved of the engine as a whole.
//! [`packet`], [`pid`] and [`log_once`] are small tools of the host around the engine.

pub mod bytes_util;
pub mod connection;
pub mod delivery;
pub mod error;
pub mod flags;
pub mod handshake;
pub mod header;
pub mod well_formed;
pub mod laws;
pub mod listen;
pub mod log_once;
pub mod packet;
pub mod payload;
pub mod pid;
pub mod recv_buffer;
pub mod rtt;
pub mod send_buffer;
pub mod seq;
pub mod session;
pub mod state;
pub mod timer;
pub mod trace;
pub mod transfer;

pub use crate::connection::StateTag;
pub use crate::error::{
    AcceptError, CloseError, ConnectError, ListenError, PopPacketError, PushPacketError,
    RecvError, SendError, TcpError,
};
pub use crate::flags::{PollState, Readiness, TcpFlags};
pub use crate::header::{Endpoint, Ipv4Header, SackBlocks, TcpHeader};
pub use crate::pid::Pid;
pub use crate::state::{AcceptedTcpState, TcpState};
pub use crate::timer::{Dependencies, Timer, TimerKind, TimerRegisteredBy};
