//! A real-time chat relay core: identities, packets, message storage and the
//! routing and draft state machine that turns inbound packets into deliveries.

mod assoc;
pub mod identity;
pub mod packet;
pub mod protocol;
pub mod storage;
pub mod message_server;
