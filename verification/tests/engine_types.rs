//! Tests for the engine-boundary data types: application settings,
//! material interface, render mode, and queue-family bookkeeping.

use scene_ecs::application::ApplicationInfo;
use scene_ecs::material::{Material, MaterialType};
use scene_ecs::renderer::RenderMode;
use scene_ecs::vulkan::QueueFamilyIndices;

#[test]
fn application_info_default_values() {
    let info = ApplicationInfo::default();
    assert_eq!(info.window_title, "Vulkan application");
    assert_eq!(info.window_size, [800, 600]);
    assert!(!info.resizeable);
    assert!(!info.exit_on_escape);
}

#[test]
fn queue_family_completeness() {
    let none = QueueFamilyIndices {
        graphic_family: None,
        present_family: None,
    };
    assert!(!none.is_complete());

    let graphics_only = QueueFamilyIndices {
        graphic_family: Some(0),
        present_family: None,
    };
    assert!(!graphics_only.is_complete());

    let present_only = QueueFamilyIndices {
        graphic_family: None,
        present_family: Some(1),
    };
    assert!(!present_only.is_complete());

    let both = QueueFamilyIndices {
        graphic_family: Some(0),
        present_family: Some(1),
    };
    assert!(both.is_complete());
}

struct FlatGray;

impl Material for FlatGray {
    fn material_type(&self) -> MaterialType {
        MaterialType::Simple
    }

    fn shader_data(&self) -> Vec<u8> {
        vec![128, 128, 128, 255]
    }
}

#[test]
fn material_interface_carries_type_and_data() {
    let m = FlatGray;
    assert_eq!(m.material_type(), MaterialType::Simple);
    assert_eq!(m.shader_data(), vec![128, 128, 128, 255]);
    assert_ne!(m.material_type(), MaterialType::BlinnPhong);
    assert_ne!(m.material_type(), MaterialType::GLTF2);
}

#[test]
fn render_mode_is_copy_and_comparable() {
    let mode = RenderMode::Default;
    let copy = mode;
    assert_eq!(mode, copy);
    assert_ne!(RenderMode::NormalView, RenderMode::DepthView);
}
