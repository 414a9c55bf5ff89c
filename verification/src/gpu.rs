//! The data the GPU abstraction is configured and reported with: backends,
//! buffer descriptors, device and instance configuration, and the errors
//! those layers can raise. The backends themselves talk to drivers and live
//! outside this library; these types carry the decisions to them.

use vstd::prelude::*;

verus! {

/// The available backends for accessing the GPU.
#[derive(Clone, Copy, PartialEq, Eq, Structural, Debug)]
pub enum Backend {
    /// The WebGPU backend.
    WebGPU,
}

/// All buffer-related errors.
#[derive(Clone, Copy, PartialEq, Eq, Structural, Debug)]
pub enum BufferError {
    /// Not enough memory.
    OutOfMemory,
}

impl BufferError {
    /// A short description of the error.
    pub fn message(&self) -> (r: &'static str)
        ensures
            r@ =~= "Not enough memory."@,
    {
        "Not enough memory."
    }
}

/// The role a buffer plays on the GPU.
#[derive(Clone, Copy, PartialEq, Eq, Structural, Debug)]
pub enum BufferUsage {
    /// The buffer is used as a vertex buffer.
    Vertex,
    /// The buffer is used as an index buffer.
    Index,
    /// The buffer is used as a uniform buffer.
    Uniform,
    /// The buffer is used as a storage buffer.
    Storage,
}

/// The description a new buffer is created from.
#[derive(Clone, Copy, PartialEq, Eq, Structural, Debug)]
pub struct BufferDescriptor {
    /// The size of the buffer in bytes.
    pub size: u64,
    /// The usage of the buffer.
    pub usage: BufferUsage,
}

/// The description a new buffer with initial contents is created from.
#[derive(Clone, Copy, PartialEq, Debug)]
pub struct BufferDataDescriptor<'data> {
    /// The usage of the buffer.
    pub usage: BufferUsage,
    /// The bytes the buffer starts with.
    pub data: &'data [u8],
}

/// How strongly a device should prefer performance over power.
#[derive(Clone, Copy, PartialEq, Eq, Structural, Debug)]
pub enum PowerPreference {
    /// Low power preference.
    Low,
    /// High performance preference.
    High,
}

/// The configuration a device is created from.
#[derive(Clone, Copy, PartialEq, Eq, Structural, Debug)]
pub struct DeviceConfig {
    /// The power preference of the device.
    pub power_preference: PowerPreference,
}

/// Everything that can go wrong while creating or using a device.
#[derive(Clone, Copy, PartialEq, Eq, Structural, Debug)]
pub enum DeviceError {
    /// Not enough memory.
    OutOfMemory,
    /// The device is lost.
    DeviceLost,
    /// The device does not support the required features.
    UnsupportedFeatures,
    /// The device does not support the required extensions.
    UnsupportedExtensions,
    /// There is no suitable device.
    NoSuitableDevice,
    /// The initialisation of the device failed.
    InitializationFailed,
}

impl DeviceError {
    /// A short description of the error.
    pub fn message(&self) -> (r: &'static str)
        ensures
            *self == DeviceError::OutOfMemory ==> r@ =~= "Not enough memory."@,
            *self == DeviceError::DeviceLost ==> r@ =~= "The device is lost."@,
    {
        match self {
            DeviceError::OutOfMemory => "Not enough memory.",
            DeviceError::DeviceLost => "The device is lost.",
            DeviceError::UnsupportedFeatures => "The device does not support the required features.",
            DeviceError::UnsupportedExtensions => "The device does not support the required extensions.",
            DeviceError::NoSuitableDevice => "There is no suitable device.",
            DeviceError::InitializationFailed => "The initialisation of the device failed.",
        }
    }
}

/// The version of an application.
#[derive(Clone, Copy, PartialEq, Eq, Structural, Debug)]
pub struct Version {
    /// The major version.
    pub major: u32,
    /// The minor version.
    pub minor: u32,
    /// The patch version.
    pub patch: u32,
}

/// The configuration an instance is created from.
#[derive(Clone, PartialEq, Debug)]
pub struct InstanceConfig {
    /// The backend to use.
    pub backend: Backend,
    /// The name of the application.
    pub app_name: String,
    /// The version of the application.
    pub app_version: Version,
}

/// Everything that can go wrong while creating an instance.
#[derive(Clone, Copy, PartialEq, Eq, Structural, Debug)]
pub enum InstanceError {
    /// The backend is not supported.
    UnsupportedBackend,
    /// The backend failed to create the instance.
    BackendError,
}

impl InstanceError {
    /// A short description of the error.
    pub fn message(&self) -> (r: &'static str)
        ensures
            *self == InstanceError::UnsupportedBackend ==> r@ =~= "The backend is not supported."@,
            *self == InstanceError::BackendError ==> r@
                =~= "The backend failed to create the instance."@,
    {
        match self {
            InstanceError::UnsupportedBackend => "The backend is not supported.",
            InstanceError::BackendError => "The backend failed to create the instance.",
        }
    }
}

/// Everything that can go wrong while creating or configuring a surface.
#[derive(Clone, Copy, PartialEq, Eq, Structural, Debug)]
pub enum SurfaceError {
    /// The backend failed to create the surface.
    BackendError,
    /// Failed to configure the surface.
    ConfigureError,
}

impl SurfaceError {
    /// A short description of the error.
    pub fn message(&self) -> (r: &'static str)
        ensures
            *self == SurfaceError::BackendError ==> r@
                =~= "The backend failed to create the surface."@,
            *self == SurfaceError::ConfigureError ==> r@ =~= "Failed to configure the surface."@,
    {
        match self {
            SurfaceError::BackendError => "The backend failed to create the surface.",
            SurfaceError::ConfigureError => "Failed to configure the surface.",
        }
    }
}

} // verus!
