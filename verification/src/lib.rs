//! Kubernetes-independent encryption intent, Node key authority, and public
//! key transparency contracts for a WireGuard-based pod encryption dataplane.
//!
//! Every value that becomes authority is checked by a verified function whose
//! contract states exactly when it is accepted.

pub mod ids;
pub mod address;
pub mod model;
pub mod kernel_provider;
pub mod text;
pub mod digest;
pub mod keys;
pub mod key_authority;
pub mod storage;
pub mod recipients;
pub mod key_transparency;
pub mod key_attestation;
pub mod sorting;
pub mod contract;
pub mod replay;
pub mod netlink_readback;
pub mod kernel_snapshot;
pub mod reorder;
pub mod fast_path_transaction;
pub mod kernel_plan;
pub mod kubernetes_projection;
