//! What runs on the bare device before the kernel.
pub mod exynos7870;
pub mod fdt;
pub mod msm8916;
pub mod patch;
pub mod payload;
pub mod ram_trace;
pub mod resident;
pub mod scm;
pub mod startup;
pub mod uart;
