[package]
name = "auto_claw"
version = "0.1.0"
edition = "2021"
publish = false

[dependencies]
byteorder = "1"
packed_simd = "*"
wasm-bindgen = "0.2"
js-sys = "0.3"
web-sys = { version = "0.3", features = ["WebSocket", "MessageEvent", "ErrorEvent", "BinaryType", "RtcPeerConnection", "RtcDataChannel", "RtcDataChannelEvent", "RtcDataChannelType", "RtcIceCandidate", "RtcIceCandidateInit", "RtcPeerConnectionIceEvent", "RtcSdpType", "RtcSessionDescriptionInit", "RtcSignalingState"] }
wasm-bindgen-futures = "0.4"
serde = { version = "1", features = ["derive"] }
rand = "0.8"
failure = "0.1"
console_error_panic_hook = "0.1"
nodejs-helper = "*"
log = "0.4"
fern = "0.6"
uuid = { version = "1", features = ["v4"] }
websocket = { version = "0.26", default-features = false, features = ["sync"] }
rocket = { version = "0.5", features = ["json"] }
maplit = "1"
