//! The GPU configuration and error data.

use thndr::gpu::{
    Backend, BufferDataDescriptor, BufferDescriptor, BufferError, BufferUsage, DeviceConfig,
    DeviceError, InstanceConfig, InstanceError, PowerPreference, SurfaceError, Version,
};

#[test]
fn descriptors_hold_their_fields() {
    let d = BufferDescriptor { size: 1024, usage: BufferUsage::Vertex };
    assert_eq!(d.size, 1024);
    assert_eq!(d.usage, BufferUsage::Vertex);
    let data = [0u8, 1, 2, 3];
    let dd = BufferDataDescriptor { usage: BufferUsage::Index, data: &data };
    assert_eq!(dd.data.len(), 4);
    let cfg = InstanceConfig {
        backend: Backend::WebGPU,
        app_name: "Test".to_string(),
        app_version: Version { major: 1, minor: 0, patch: 0 },
    };
    assert_eq!(cfg.app_version, Version { major: 1, minor: 0, patch: 0 });
    let dc = DeviceConfig { power_preference: PowerPreference::Low };
    assert_eq!(dc.power_preference, PowerPreference::Low);
}

#[test]
fn error_messages_match() {
    assert_eq!(BufferError::OutOfMemory.message(), "Not enough memory.");
    assert_eq!(DeviceError::OutOfMemory.message(), "Not enough memory.");
    assert_eq!(DeviceError::DeviceLost.message(), "The device is lost.");
    assert_eq!(
        DeviceError::UnsupportedFeatures.message(),
        "The device does not support the required features."
    );
    assert_eq!(
        DeviceError::UnsupportedExtensions.message(),
        "The device does not support the required extensions."
    );
    assert_eq!(DeviceError::NoSuitableDevice.message(), "There is no suitable device.");
    assert_eq!(
        DeviceError::InitializationFailed.message(),
        "The initialisation of the device failed."
    );
    assert_eq!(InstanceError::UnsupportedBackend.message(), "The backend is not supported.");
    assert_eq!(
        InstanceError::BackendError.message(),
        "The backend failed to create the instance."
    );
    assert_eq!(SurfaceError::BackendError.message(), "The backend failed to create the surface.");
    assert_eq!(SurfaceError::ConfigureError.message(), "Failed to configure the surface.");
}
