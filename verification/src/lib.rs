//! LinuxBoot for pocket computers: what the boot environment decides and computes.
pub mod ab_slots;
pub mod adb;
pub mod android_lp;
pub mod battery;
pub mod boot_menu;
pub mod boot_state;
pub mod bootflow;
pub mod bytes;
pub mod cmdline;
pub mod collect;
pub mod devicetree;
pub mod digest;
pub mod errors;
pub mod fastboot;
pub mod firmware;
pub mod gadget;
pub mod getty;
pub mod kexec;
pub mod kmsg;
pub mod kmsg_forwarder;
pub mod mesh;
pub mod modules;
pub mod order;
pub mod partitions;
pub mod pe;
pub mod power;
pub mod preboot;
pub mod system;
pub mod text;
pub mod zboot;
